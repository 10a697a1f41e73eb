//! The exact pixels that undo and redo need, kept for each history entry.

use crate::document::DocumentRevision;
use crate::gpu_document_history::{GpuHistoryDirection, GpuHistoryId};
use crate::gpu_raster_recovery::{ExactCommandModel, GpuExactRasterRecoveryCommand};
use crate::gpu_raster_transition::{GpuExactRasterRecoveryTransition, TransitionModel};
use vstd::prelude::*;

verus! {

/// Room for the pixels before and after 64 MiB of history, and for the headers
/// of as many tiles and regions as 256 entries bring.
pub const DEFAULT_GPU_HISTORY_RECOVERY_BYTES: u64 = 160 * 1024 * 1024;

pub const DEFAULT_GPU_HISTORY_RECOVERY_ENTRIES: usize = 256;

#[derive(Clone, Copy, Debug, PartialEq, Eq, Structural)]
#[allow(inconsistent_fields)]
pub enum GpuHistoryRecoveryError {
    InvalidEntryLimit,
    InvalidByteLimit,
    NonConsecutiveRevision { source: DocumentRevision, target: DocumentRevision },
    DuplicateHistoryId { id: GpuHistoryId, revision: DocumentRevision },
    DuplicateRevision { revision: DocumentRevision, registered_id: GpuHistoryId },
    EntryLimitExhausted { resident: usize, maximum: usize },
    UntrackedHistoryId(GpuHistoryId),
    UntrackedRevision(DocumentRevision),
    SourceRevisionMismatch {
        id: GpuHistoryId,
        expected: DocumentRevision,
        actual: DocumentRevision,
    },
    TransitionAlreadyAttached { id: GpuHistoryId, revision: DocumentRevision },
    TransitionPending { id: GpuHistoryId, revision: DocumentRevision },
    TransitionExceedsByteLimit { requested: u64, maximum: u64 },
    ByteLimitExhausted { resident: u64, requested: u64, maximum: u64 },
    ByteCountOverflow,
}

/// One history entry and, once they are known, its pixels.
#[derive(Debug)]
pub struct GpuHistoryRecoveryEntry {
    pub(crate) id: GpuHistoryId,
    pub(crate) source_revision: DocumentRevision,
    pub(crate) revision: DocumentRevision,
    pub(crate) transition: Option<GpuExactRasterRecoveryTransition>,
}

pub struct SpillModel {
    pub id: GpuHistoryId,
    pub source_revision: DocumentRevision,
    pub revision: DocumentRevision,
    pub transition: Option<TransitionModel>,
}

impl SpillModel {
    pub open spec fn byte_len(self) -> int {
        match self.transition {
            Some(transition) => transition.byte_len(),
            None => 0,
        }
    }

    /// The entry names the revision that its pixels belong to.
    pub open spec fn valid(self) -> bool {
        &&& self.source_revision.0 + 1 == self.revision.0
        &&& self.transition matches Some(transition) ==> {
            &&& transition.source_revision == self.source_revision
            &&& transition.revision == self.revision
            &&& transition.before.valid()
            &&& transition.after.valid()
        }
    }
}

impl View for GpuHistoryRecoveryEntry {
    type V = SpillModel;

    open(crate) spec fn view(&self) -> SpillModel {
        SpillModel {
            id: self.id,
            source_revision: self.source_revision,
            revision: self.revision,
            transition: match self.transition {
                Some(transition) => Some(transition@),
                None => None,
            },
        }
    }
}

pub open spec fn spill_models(entries: Seq<GpuHistoryRecoveryEntry>) -> Seq<
    SpillModel,
> {
    Seq::new(entries.len(), |i: int| entries[i]@)
}

impl GpuHistoryRecoveryEntry {
    pub open(crate) spec fn wf(self) -> bool {
        self.transition matches Some(transition) ==> transition.wf()
    }

    pub fn id(&self) -> (id: GpuHistoryId)
        ensures
            id == self@.id,
    {
        self.id
    }

    pub fn source_revision(&self) -> (revision: DocumentRevision)
        ensures
            revision == self@.source_revision,
    {
        self.source_revision
    }

    pub fn revision(&self) -> (revision: DocumentRevision)
        ensures
            revision == self@.revision,
    {
        self.revision
    }

    pub fn transition(&self) -> (transition: Option<&GpuExactRasterRecoveryTransition>)
        requires
            self.wf(),
        ensures
            match transition {
                Some(transition) => transition.wf() && self@.transition == Some(transition@),
                None => self@.transition is None,
            },
    {
        match &self.transition {
            Some(transition) => Some(transition),
            None => None,
        }
    }

    pub fn retained_byte_len(&self) -> (len: u64)
        requires
            self.wf(),
        ensures
            len == self@.byte_len(),
    {
        match &self.transition {
            Some(transition) => transition.retained_byte_len(),
            None => 0,
        }
    }

    pub fn into_transition(self) -> (transition: Option<GpuExactRasterRecoveryTransition>)
        requires
            self.wf(),
        ensures
            match transition {
                Some(transition) => transition.wf() && self@.transition == Some(transition@),
                None => self@.transition is None,
            },
    {
        self.transition
    }
}

/// What a spill is found by.
#[derive(Clone, Copy, Debug, PartialEq, Eq, Structural)]
pub struct SpillKey {
    pub id: GpuHistoryId,
    pub revision: DocumentRevision,
}

pub open spec fn spill_keys(entries: Seq<SpillModel>) -> Seq<SpillKey> {
    Seq::new(entries.len(), |i: int| SpillKey { id: entries[i].id, revision: entries[i].revision })
}

/// Where the entry with this name stands.
pub open spec fn find_id(keys: Seq<SpillKey>, id: GpuHistoryId) -> Option<int>
    decreases keys.len(),
{
    if keys.len() == 0 {
        None
    } else if keys.last().id == id {
        Some(keys.len() - 1)
    } else {
        find_id(keys.drop_last(), id)
    }
}

/// Where the entry with this revision stands.
pub open spec fn find_revision(keys: Seq<SpillKey>, revision: DocumentRevision) -> Option<int>
    decreases keys.len(),
{
    if keys.len() == 0 {
        None
    } else if keys.last().revision == revision {
        Some(keys.len() - 1)
    } else {
        find_revision(keys.drop_last(), revision)
    }
}

/// How many entries have a smaller name.
pub open spec fn rank_of(keys: Seq<SpillKey>, id: GpuHistoryId) -> int
    decreases keys.len(),
{
    if keys.len() == 0 {
        0
    } else {
        rank_of(keys.drop_last(), id) + if keys.last().id.0 < id.0 {
            1int
        } else {
            0
        }
    }
}

/// Names in order, no revision twice.
pub open spec fn keys_valid(keys: Seq<SpillKey>) -> bool {
    &&& forall|i: int, j: int|
        #![trigger keys[i], keys[j]]
        0 <= i < j < keys.len() ==> keys[i].id.0 < keys[j].id.0 && keys[i].revision
            != keys[j].revision
}

/// How many entries have their pixels.
pub open spec fn ready_count(entries: Seq<SpillModel>) -> int
    decreases entries.len(),
{
    if entries.len() == 0 {
        0
    } else {
        ready_count(entries.drop_last()) + if entries.last().transition is Some {
            1int
        } else {
            0
        }
    }
}

/// What the pixels of all entries take.
pub open spec fn spill_bytes(entries: Seq<SpillModel>) -> int
    decreases entries.len(),
{
    if entries.len() == 0 {
        0
    } else {
        spill_bytes(entries.drop_last()) + entries.last().byte_len()
    }
}

pub struct SpillsModel {
    pub entries: Seq<SpillModel>,
    pub max_entries: int,
    pub max_bytes: int,
}

/// Why an entry is not registered beside those with the given keys, if it is not.
pub open spec fn key_error(
    keys: Seq<SpillKey>,
    max_entries: int,
    id: GpuHistoryId,
    source_revision: DocumentRevision,
    revision: DocumentRevision,
) -> Option<GpuHistoryRecoveryError> {
    if source_revision.0 + 1 != revision.0 {
        Some(
            GpuHistoryRecoveryError::NonConsecutiveRevision {
                source: source_revision,
                target: revision,
            },
        )
    } else if let Some(i) = find_id(keys, id) {
        Some(GpuHistoryRecoveryError::DuplicateHistoryId { id, revision: keys[i].revision })
    } else if let Some(i) = find_revision(keys, revision) {
        Some(GpuHistoryRecoveryError::DuplicateRevision { revision, registered_id: keys[i].id })
    } else if keys.len() == max_entries {
        Some(
            GpuHistoryRecoveryError::EntryLimitExhausted {
                resident: keys.len() as usize,
                maximum: max_entries as usize,
            },
        )
    } else {
        None
    }
}

/// The keys without those of the given entries.
pub open spec fn keys_without(keys: Seq<SpillKey>, evicted: Seq<GpuHistoryId>) -> Seq<SpillKey>
    decreases evicted.len(),
{
    if evicted.len() == 0 {
        keys
    } else {
        let rest = keys_without(keys, evicted.drop_last());
        match find_id(rest, evicted.last()) {
            Some(i) => rest.remove(i),
            None => rest,
        }
    }
}

/// Why the entries are not given up, if they are not.
pub open spec fn eviction_error(keys: Seq<SpillKey>, evicted: Seq<GpuHistoryId>) -> Option<
    GpuHistoryRecoveryError,
>
    decreases evicted.len(),
{
    if evicted.len() == 0 {
        None
    } else {
        match eviction_error(keys, evicted.drop_last()) {
            Some(error) => Some(error),
            None => if find_id(keys_without(keys, evicted.drop_last()), evicted.last()) is None {
                Some(GpuHistoryRecoveryError::UntrackedHistoryId(evicted.last()))
            } else {
                None
            },
        }
    }
}

impl SpillsModel {
    pub open spec fn keys(self) -> Seq<SpillKey> {
        spill_keys(self.entries)
    }

    pub open spec fn valid(self) -> bool {
        &&& 0 < self.max_entries
        &&& 0 < self.max_bytes
        &&& self.entries.len() <= self.max_entries
        &&& 0 <= spill_bytes(self.entries) <= self.max_bytes
        &&& keys_valid(self.keys())
        &&& forall|i: int|
            #![trigger self.entries[i]]
            0 <= i < self.entries.len() ==> self.entries[i].valid()
    }

    pub open spec fn register_error(
        self,
        id: GpuHistoryId,
        source_revision: DocumentRevision,
        revision: DocumentRevision,
    ) -> Option<GpuHistoryRecoveryError> {
        key_error(self.keys(), self.max_entries, id, source_revision, revision)
    }

    pub open spec fn registered(
        self,
        id: GpuHistoryId,
        source_revision: DocumentRevision,
        revision: DocumentRevision,
    ) -> SpillsModel {
        let entry = SpillModel { id, source_revision, revision, transition: None };
        SpillsModel { entries: self.entries.insert(rank_of(self.keys(), id), entry), ..self }
    }

    pub open spec fn attach_error(self, transition: TransitionModel) -> Option<
        GpuHistoryRecoveryError,
    > {
        match find_revision(self.keys(), transition.revision) {
            None => Some(GpuHistoryRecoveryError::UntrackedRevision(transition.revision)),
            Some(i) => {
                let entry = self.entries[i];
                if entry.transition is Some {
                    Some(
                        GpuHistoryRecoveryError::TransitionAlreadyAttached {
                            id: entry.id,
                            revision: transition.revision,
                        },
                    )
                } else if transition.source_revision != entry.source_revision {
                    Some(
                        GpuHistoryRecoveryError::SourceRevisionMismatch {
                            id: entry.id,
                            expected: entry.source_revision,
                            actual: transition.source_revision,
                        },
                    )
                } else if transition.byte_len() > self.max_bytes {
                    Some(
                        GpuHistoryRecoveryError::TransitionExceedsByteLimit {
                            requested: transition.byte_len() as u64,
                            maximum: self.max_bytes as u64,
                        },
                    )
                } else if spill_bytes(self.entries) + transition.byte_len() > u64::MAX {
                    Some(GpuHistoryRecoveryError::ByteCountOverflow)
                } else if spill_bytes(self.entries) + transition.byte_len() > self.max_bytes {
                    Some(
                        GpuHistoryRecoveryError::ByteLimitExhausted {
                            resident: spill_bytes(self.entries) as u64,
                            requested: transition.byte_len() as u64,
                            maximum: self.max_bytes as u64,
                        },
                    )
                } else {
                    None
                }
            },
        }
    }

    /// The entry whose pixels these are, as the caller is told of it.
    pub open spec fn attachment(self, transition: TransitionModel) -> GpuHistoryRecoveryAttachment {
        GpuHistoryRecoveryAttachment {
            id: self.entries[find_revision(self.keys(), transition.revision)->0].id,
            revision: transition.revision,
            byte_len: transition.byte_len() as u64,
        }
    }

    pub open spec fn attached(self, transition: TransitionModel) -> SpillsModel {
        let i = find_revision(self.keys(), transition.revision)->0;
        SpillsModel {
            entries: self.entries.update(
                i,
                SpillModel { transition: Some(transition), ..self.entries[i] },
            ),
            ..self
        }
    }

    pub open spec fn without(self, id: GpuHistoryId) -> SpillsModel {
        match find_id(self.keys(), id) {
            Some(i) => SpillsModel { entries: self.entries.remove(i), ..self },
            None => self,
        }
    }

    pub open spec fn without_all(self, evicted: Seq<GpuHistoryId>) -> SpillsModel
        decreases evicted.len(),
    {
        if evicted.len() == 0 {
            self
        } else {
            self.without_all(evicted.drop_last()).without(evicted.last())
        }
    }

    /// The entries that are given up, in the order in which they are named.
    pub open spec fn evicted(self, evicted: Seq<GpuHistoryId>) -> Seq<SpillModel>
        decreases evicted.len(),
    {
        if evicted.len() == 0 {
            Seq::empty()
        } else {
            let rest = self.without_all(evicted.drop_last());
            match find_id(rest.keys(), evicted.last()) {
                Some(i) => self.evicted(evicted.drop_last()).push(rest.entries[i]),
                None => self.evicted(evicted.drop_last()),
            }
        }
    }

    /// Why an entry does not take the place of others, if it does not.
    pub open spec fn replace_error(
        self,
        evicted: Seq<GpuHistoryId>,
        id: GpuHistoryId,
        source_revision: DocumentRevision,
        revision: DocumentRevision,
    ) -> Option<GpuHistoryRecoveryError> {
        match eviction_error(self.keys(), evicted) {
            Some(error) => Some(error),
            None => key_error(
                keys_without(self.keys(), evicted),
                self.max_entries,
                id,
                source_revision,
                revision,
            ),
        }
    }

    pub open spec fn replaced(
        self,
        evicted: Seq<GpuHistoryId>,
        id: GpuHistoryId,
        source_revision: DocumentRevision,
        revision: DocumentRevision,
    ) -> SpillsModel {
        self.without_all(evicted).registered(id, source_revision, revision)
    }

    /// The pixels that a step through the history brings back.
    pub open spec fn command_for(self, id: GpuHistoryId, direction: GpuHistoryDirection) -> Result<
        ExactCommandModel,
        GpuHistoryRecoveryError,
    > {
        match find_id(self.keys(), id) {
            None => Err(GpuHistoryRecoveryError::UntrackedHistoryId(id)),
            Some(i) => match self.entries[i].transition {
                None => Err(
                    GpuHistoryRecoveryError::TransitionPending {
                        id,
                        revision: self.entries[i].revision,
                    },
                ),
                Some(transition) => Ok(
                    match direction {
                        GpuHistoryDirection::Undo => transition.before,
                        GpuHistoryDirection::Redo => transition.after,
                    },
                ),
            },
        }
    }
}

pub proof fn lemma_find_id(keys: Seq<SpillKey>, id: GpuHistoryId)
    ensures
        match find_id(keys, id) {
            Some(i) => 0 <= i < keys.len() && keys[i].id == id,
            None => forall|i: int| 0 <= i < keys.len() ==> (#[trigger] keys[i]).id != id,
        },
    decreases keys.len(),
{
    if keys.len() > 0 && keys.last().id != id {
        let rest = keys.drop_last();
        lemma_find_id(rest, id);
        assert forall|i: int| find_id(rest, id) is None && 0 <= i < keys.len() implies (
        #[trigger] keys[i]).id != id by {
            if i < rest.len() {
                assert(rest[i] == keys[i]);
            }
        }
    }
}

pub proof fn lemma_find_revision(keys: Seq<SpillKey>, revision: DocumentRevision)
    ensures
        match find_revision(keys, revision) {
            Some(i) => 0 <= i < keys.len() && keys[i].revision == revision,
            None => forall|i: int|
                0 <= i < keys.len() ==> (#[trigger] keys[i]).revision != revision,
        },
    decreases keys.len(),
{
    if keys.len() > 0 && keys.last().revision != revision {
        let rest = keys.drop_last();
        lemma_find_revision(rest, revision);
        assert forall|i: int| find_revision(rest, revision) is None && 0 <= i < keys.len() implies (
        #[trigger] keys[i]).revision != revision by {
            if i < rest.len() {
                assert(rest[i] == keys[i]);
            }
        }
    }
}

pub(crate) proof fn lemma_rank(keys: Seq<SpillKey>, id: GpuHistoryId)
    requires
        keys_valid(keys),
    ensures
        0 <= rank_of(keys, id) <= keys.len(),
        forall|i: int|
            0 <= i < keys.len() ==> ((#[trigger] keys[i]).id.0 < id.0 <==> i < rank_of(keys, id)),
    decreases keys.len(),
{
    if keys.len() > 0 {
        let rest = keys.drop_last();
        assert forall|i: int, j: int|
            #![trigger rest[i], rest[j]]
            0 <= i < j < rest.len() implies rest[i].id.0 < rest[j].id.0 && rest[i].revision
            != rest[j].revision by {
            assert(rest[i] == keys[i] && rest[j] == keys[j]);
        }
        lemma_rank(rest, id);
        let last = keys.len() - 1;
        if keys[last].id.0 < id.0 {
            assert forall|i: int| 0 <= i < rest.len() implies (#[trigger] keys[i]).id.0 < id.0 by {
                assert(keys[i].id.0 < keys[last].id.0);
            }
            if rest.len() > 0 {
                let end = rest.len() - 1;
                assert(rest[end] == keys[end]);
                assert(keys[end].id.0 < id.0);
            }
        }
        assert forall|i: int| 0 <= i < keys.len() implies ((#[trigger] keys[i]).id.0 < id.0 <==> i
            < rank_of(keys, id)) by {
            if i < rest.len() {
                assert(rest[i] == keys[i]);
            }
        }
    }
}

proof fn lemma_inserted_sums(entries: Seq<SpillModel>, at: int, entry: SpillModel)
    requires
        0 <= at <= entries.len(),
    ensures
        spill_bytes(entries.insert(at, entry)) == spill_bytes(entries) + entry.byte_len(),
        ready_count(entries.insert(at, entry)) == ready_count(entries) + (if entry.transition
            is Some {
            1int
        } else {
            0
        }),
    decreases entries.len(),
{
    let next = entries.insert(at, entry);
    if at == entries.len() {
        assert(next.drop_last() =~= entries);
    } else {
        lemma_inserted_sums(entries.drop_last(), at, entry);
        assert(next.drop_last() =~= entries.drop_last().insert(at, entry));
        assert(next.last() == entries.last());
    }
}

proof fn lemma_removed_sums(entries: Seq<SpillModel>, at: int)
    requires
        0 <= at < entries.len(),
    ensures
        spill_bytes(entries.remove(at)) == spill_bytes(entries) - entries[at].byte_len(),
        ready_count(entries.remove(at)) == ready_count(entries) - (if entries[at].transition
            is Some {
            1int
        } else {
            0
        }),
{
    lemma_inserted_sums(entries.remove(at), at, entries[at]);
    assert(entries.remove(at).insert(at, entries[at]) =~= entries);
}

pub(crate) proof fn lemma_updated_sums(entries: Seq<SpillModel>, at: int, entry: SpillModel)
    requires
        0 <= at < entries.len(),
        entries[at].transition is None,
        entry.transition is Some,
    ensures
        spill_bytes(entries.update(at, entry)) == spill_bytes(entries) + entry.byte_len(),
        ready_count(entries.update(at, entry)) == ready_count(entries) + 1,
{
    lemma_removed_sums(entries, at);
    lemma_inserted_sums(entries.remove(at), at, entry);
    assert(entries.remove(at).insert(at, entry) =~= entries.update(at, entry));
}

proof fn lemma_sums_bounded(entries: Seq<SpillModel>)
    requires
        forall|i: int| #![trigger entries[i]] 0 <= i < entries.len() ==> entries[i].valid(),
    ensures
        0 <= ready_count(entries) <= entries.len(),
        0 <= spill_bytes(entries),
    decreases entries.len(),
{
    if entries.len() > 0 {
        let rest = entries.drop_last();
        assert forall|i: int|
            #![trigger rest[i]]
            0 <= i < rest.len() implies rest[i].valid() by {
            assert(rest[i] == entries[i]);
        }
        lemma_sums_bounded(rest);
        assert(entries[entries.len() - 1].valid());
    }
}

/// Removing an entry leaves a valid set.
proof fn lemma_without_valid(model: SpillsModel, id: GpuHistoryId)
    requires
        model.valid(),
    ensures
        model.without(id).valid(),
        model.without(id).keys() == (match find_id(model.keys(), id) {
            Some(i) => model.keys().remove(i),
            None => model.keys(),
        }),
{
    let keys = model.keys();
    lemma_find_id(keys, id);
    match find_id(keys, id) {
        Some(at) => {
            let next = model.without(id);
            lemma_removed_sums(model.entries, at);
            assert(next.keys() =~= keys.remove(at));
            assert forall|i: int|
                #![trigger next.entries[i]]
                0 <= i < next.entries.len() implies next.entries[i].valid() by {
                assert(next.entries[i] == model.entries[if i < at {
                    i
                } else {
                    i + 1
                }]);
            }
            lemma_sums_bounded(next.entries);
            assert(model.entries[at].valid());
        },
        None => {},
    }
}

pub(crate) proof fn lemma_without_all_valid(model: SpillsModel, evicted: Seq<GpuHistoryId>)
    requires
        model.valid(),
    ensures
        model.without_all(evicted).valid(),
        model.without_all(evicted).keys() == keys_without(model.keys(), evicted),
        model.without_all(evicted).max_entries == model.max_entries,
        model.without_all(evicted).max_bytes == model.max_bytes,
    decreases evicted.len(),
{
    if evicted.len() > 0 {
        lemma_without_all_valid(model, evicted.drop_last());
        lemma_without_valid(model.without_all(evicted.drop_last()), evicted.last());
    }
}

/// Registering an entry leaves a valid set.
proof fn lemma_registered_valid(
    model: SpillsModel,
    id: GpuHistoryId,
    source_revision: DocumentRevision,
    revision: DocumentRevision,
)
    requires
        model.valid(),
        model.register_error(id, source_revision, revision) is None,
    ensures
        model.registered(id, source_revision, revision).valid(),
        ready_count(model.registered(id, source_revision, revision).entries) == ready_count(
            model.entries,
        ),
        spill_bytes(model.registered(id, source_revision, revision).entries) == spill_bytes(
            model.entries,
        ),
{
    let keys = model.keys();
    let next = model.registered(id, source_revision, revision);
    let at = rank_of(keys, id);
    lemma_find_id(keys, id);
    lemma_find_revision(keys, revision);
    lemma_rank(keys, id);
    let entry = SpillModel { id, source_revision, revision, transition: None };
    lemma_inserted_sums(model.entries, at, entry);
    let next_keys = next.keys();
    assert(next_keys =~= keys.insert(at, SpillKey { id, revision }));
    assert forall|i: int, j: int|
        #![trigger next_keys[i], next_keys[j]]
        0 <= i < j < next_keys.len() implies next_keys[i].id.0 < next_keys[j].id.0
        && next_keys[i].revision != next_keys[j].revision by {
        let from_i = if i < at {
            i
        } else {
            i - 1
        };
        let from_j = if j < at {
            j
        } else {
            j - 1
        };
        if i == at {
            assert(keys[from_j].id != id);
            assert(keys[from_j].revision != revision);
        } else if j == at {
            assert(keys[from_i].id != id);
            assert(keys[from_i].revision != revision);
        } else {
            assert(keys[from_i].id.0 < keys[from_j].id.0);
        }
    }
    assert forall|i: int|
        #![trigger next.entries[i]]
        0 <= i < next.entries.len() implies next.entries[i].valid() by {
        if i < at {
            assert(next.entries[i] == model.entries[i]);
        } else if i > at {
            assert(next.entries[i] == model.entries[i - 1]);
        }
    }
}

#[derive(Clone, Copy, Debug, PartialEq, Eq, Structural)]
pub struct GpuHistoryRecoveryAttachment {
    pub id: GpuHistoryId,
    pub revision: DocumentRevision,
    pub byte_len: u64,
}

/// Why pixels were not attached, with the pixels.
#[derive(Debug)]
pub struct GpuHistoryRecoveryAttachFailure {
    pub error: GpuHistoryRecoveryError,
    pub transition: GpuExactRasterRecoveryTransition,
}

/// What a replacement gave up.
#[derive(Debug)]
pub struct GpuHistoryRecoveryReplacement {
    pub freed_bytes: u64,
    pub evicted: Vec<GpuHistoryRecoveryEntry>,
}

/// The pixels on both sides of every change in the history, within bounds.
#[derive(Debug)]
pub struct GpuHistoryRecoverySpills {
    pub(crate) entries: Vec<GpuHistoryRecoveryEntry>,
    pub(crate) ready_entries: usize,
    pub(crate) resident_bytes: u64,
    pub(crate) max_entries: usize,
    pub(crate) max_bytes: u64,
}

impl View for GpuHistoryRecoverySpills {
    type V = SpillsModel;

    open(crate) spec fn view(&self) -> SpillsModel {
        SpillsModel {
            entries: spill_models(self.entries@),
            max_entries: self.max_entries as int,
            max_bytes: self.max_bytes as int,
        }
    }
}

/// Finds an entry by its name.
fn position_of_id(keys: &Vec<SpillKey>, id: GpuHistoryId) -> (at: Option<usize>)
    ensures
        match at {
            Some(i) => find_id(keys@, id) == Some(i as int) && i < keys@.len(),
            None => find_id(keys@, id) is None,
        },
{
    let mut i: usize = keys.len();
    assert(keys@.subrange(0, i as int) =~= keys@);
    while i > 0
        invariant
            i <= keys@.len(),
            find_id(keys@, id) == find_id(keys@.subrange(0, i as int), id),
        decreases i,
    {
        let ghost prefix = keys@.subrange(0, i as int);
        i -= 1;
        assert(prefix.last() == keys@[i as int]);
        assert(prefix.drop_last() =~= keys@.subrange(0, i as int));
        if keys[i].id.0 == id.0 {
            return Some(i);
        }
    }
    None
}

fn position_of_revision(keys: &Vec<SpillKey>, revision: DocumentRevision) -> (at: Option<usize>)
    ensures
        match at {
            Some(i) => find_revision(keys@, revision) == Some(i as int) && i < keys@.len(),
            None => find_revision(keys@, revision) is None,
        },
{
    let mut i: usize = keys.len();
    assert(keys@.subrange(0, i as int) =~= keys@);
    while i > 0
        invariant
            i <= keys@.len(),
            find_revision(keys@, revision) == find_revision(
                keys@.subrange(0, i as int),
                revision,
            ),
        decreases i,
    {
        let ghost prefix = keys@.subrange(0, i as int);
        i -= 1;
        assert(prefix.last() == keys@[i as int]);
        assert(prefix.drop_last() =~= keys@.subrange(0, i as int));
        if keys[i].revision.0 == revision.0 {
            return Some(i);
        }
    }
    None
}

/// How many entries have a smaller name.
fn rank(keys: &Vec<SpillKey>, id: GpuHistoryId) -> (rank: usize)
    ensures
        rank == rank_of(keys@, id),
        rank <= keys@.len(),
{
    let mut rank: usize = 0;
    let mut i: usize = 0;
    assert(keys@.subrange(0, 0) =~= Seq::<SpillKey>::empty());
    while i < keys.len()
        invariant
            i <= keys@.len(),
            rank <= i,
            rank == rank_of(keys@.subrange(0, i as int), id),
        decreases keys@.len() - i,
    {
        let ghost prefix = keys@.subrange(0, i as int + 1);
        assert(prefix.last() == keys@[i as int]);
        assert(prefix.drop_last() =~= keys@.subrange(0, i as int));
        if keys[i].id.0 < id.0 {
            rank += 1;
        }
        i += 1;
    }
    assert(keys@.subrange(0, i as int) =~= keys@);
    rank
}

fn check_key(
    keys: &Vec<SpillKey>,
    max_entries: usize,
    id: GpuHistoryId,
    source_revision: DocumentRevision,
    revision: DocumentRevision,
) -> (checked: Result<(), GpuHistoryRecoveryError>)
    ensures
        match checked {
            Ok(_) => key_error(keys@, max_entries as int, id, source_revision, revision) is None,
            Err(error) => key_error(keys@, max_entries as int, id, source_revision, revision)
                == Some(error),
        },
{
    match source_revision.0.checked_add(1) {
        Some(next) if next == revision.0 => {},
        _ => {
            return Err(
                GpuHistoryRecoveryError::NonConsecutiveRevision {
                    source: source_revision,
                    target: revision,
                },
            );
        },
    }
    match position_of_id(keys, id) {
        Some(i) => {
            return Err(
                GpuHistoryRecoveryError::DuplicateHistoryId { id, revision: keys[i].revision },
            );
        },
        None => {},
    }
    match position_of_revision(keys, revision) {
        Some(i) => {
            return Err(
                GpuHistoryRecoveryError::DuplicateRevision { revision, registered_id: keys[i].id },
            );
        },
        None => {},
    }
    if keys.len() == max_entries {
        return Err(
            GpuHistoryRecoveryError::EntryLimitExhausted {
                resident: keys.len(),
                maximum: max_entries,
            },
        );
    }
    Ok(())
}

impl GpuHistoryRecoverySpills {
    pub open(crate) spec fn wf(self) -> bool {
        &&& self@.valid()
        &&& self.ready_entries == ready_count(self@.entries)
        &&& self.resident_bytes == spill_bytes(self@.entries)
        &&& forall|i: int|
            #![trigger self.entries@[i]]
            0 <= i < self.entries@.len() ==> self.entries@[i].wf()
    }

    pub fn new(max_entries: usize, max_bytes: u64) -> (spills: Result<
        GpuHistoryRecoverySpills,
        GpuHistoryRecoveryError,
    >)
        ensures
            match spills {
                Ok(spills) => {
                    &&& max_entries > 0
                    &&& max_bytes > 0
                    &&& spills.wf()
                    &&& spills@ == (SpillsModel {
                        entries: Seq::empty(),
                        max_entries: max_entries as int,
                        max_bytes: max_bytes as int,
                    })
                },
                Err(error) => error == (if max_entries == 0 {
                    GpuHistoryRecoveryError::InvalidEntryLimit
                } else {
                    GpuHistoryRecoveryError::InvalidByteLimit
                }) && (max_entries == 0 || max_bytes == 0),
            },
    {
        if max_entries == 0 {
            return Err(GpuHistoryRecoveryError::InvalidEntryLimit);
        }
        if max_bytes == 0 {
            return Err(GpuHistoryRecoveryError::InvalidByteLimit);
        }
        let spills = GpuHistoryRecoverySpills {
            entries: Vec::new(),
            ready_entries: 0,
            resident_bytes: 0,
            max_entries,
            max_bytes,
        };
        assert(spills@.entries =~= Seq::<SpillModel>::empty());
        Ok(spills)
    }

    fn keys(&self) -> (keys: Vec<SpillKey>)
        ensures
            keys@ == self@.keys(),
    {
        let mut keys: Vec<SpillKey> = Vec::new();
        let mut i: usize = 0;
        while i < self.entries.len()
            invariant
                i <= self.entries@.len(),
                keys@.len() == i,
                forall|k: int| 0 <= k < i ==> #[trigger] keys@[k] == self@.keys()[k],
            decreases self.entries@.len() - i,
        {
            keys.push(SpillKey { id: self.entries[i].id, revision: self.entries[i].revision });
            i += 1;
        }
        assert(keys@ =~= self@.keys());
        keys
    }

    fn index_of_id(&self, id: GpuHistoryId) -> (at: Option<usize>)
        ensures
            match at {
                Some(i) => find_id(self@.keys(), id) == Some(i as int) && i < self.entries@.len()
                    && self.entries@[i as int].id == id,
                None => find_id(self@.keys(), id) is None,
            },
    {
        let keys = self.keys();
        proof {
            lemma_find_id(keys@, id);
        }
        position_of_id(&keys, id)
    }

    fn index_of_revision(&self, revision: DocumentRevision) -> (at: Option<usize>)
        ensures
            match at {
                Some(i) => find_revision(self@.keys(), revision) == Some(i as int) && i
                    < self.entries@.len() && self.entries@[i as int].revision == revision,
                None => find_revision(self@.keys(), revision) is None,
            },
    {
        let keys = self.keys();
        proof {
            lemma_find_revision(keys@, revision);
        }
        position_of_revision(&keys, revision)
    }

    /// Makes room for the pixels of one history entry.
    pub fn register(
        &mut self,
        id: GpuHistoryId,
        source_revision: DocumentRevision,
        revision: DocumentRevision,
    ) -> (registered: Result<(), GpuHistoryRecoveryError>)
        requires
            old(self).wf(),
        ensures
            final(self).wf(),
            match registered {
                Ok(_) => {
                    &&& old(self)@.register_error(id, source_revision, revision) is None
                    &&& final(self)@ == old(self)@.registered(id, source_revision, revision)
                },
                Err(error) => {
                    &&& old(self)@.register_error(id, source_revision, revision) == Some(error)
                    &&& *final(self) == *old(self)
                },
            },
    {
        let keys = self.keys();
        match check_key(&keys, self.max_entries, id, source_revision, revision) {
            Ok(_) => {},
            Err(error) => {
                return Err(error);
            },
        }
        let at: usize = rank(&keys, id);
        let entry = GpuHistoryRecoveryEntry { id, source_revision, revision, transition: None };
        proof {
            lemma_registered_valid(self@, id, source_revision, revision);
        }
        self.entries.insert(at, entry);
        proof {
            assert(self@.entries =~= old(self)@.registered(id, source_revision, revision).entries);
            assert forall|i: int|
                #![trigger self.entries@[i]]
                0 <= i < self.entries@.len() implies self.entries@[i].wf() by {
                if i < at {
                    assert(self.entries@[i] == old(self).entries@[i]);
                } else if i > at {
                    assert(self.entries@[i] == old(self).entries@[i - 1]);
                }
            }
        }
        Ok(())
    }

    /// Finds the entry that the pixels belong to, and that they fit.
    pub fn check_attach(&self, transition: &GpuExactRasterRecoveryTransition) -> (checked: Result<
        GpuHistoryRecoveryAttachment,
        GpuHistoryRecoveryError,
    >)
        requires
            self.wf(),
            transition.wf(),
        ensures
            match checked {
                Ok(attachment) => {
                    &&& self@.attach_error(transition@) is None
                    &&& attachment == self@.attachment(transition@)
                },
                Err(error) => self@.attach_error(transition@) == Some(error),
            },
    {
        let revision = transition.revision();
        let at: usize = match self.index_of_revision(revision) {
            Some(at) => at,
            None => {
                return Err(GpuHistoryRecoveryError::UntrackedRevision(revision));
            },
        };
        let entry = &self.entries[at];
        assert(entry@ == self@.entries[at as int]);
        if entry.transition.is_some() {
            return Err(
                GpuHistoryRecoveryError::TransitionAlreadyAttached { id: entry.id, revision },
            );
        }
        if transition.source_revision().0 != entry.source_revision.0 {
            return Err(
                GpuHistoryRecoveryError::SourceRevisionMismatch {
                    id: entry.id,
                    expected: entry.source_revision,
                    actual: transition.source_revision(),
                },
            );
        }
        let byte_len: u64 = transition.retained_byte_len();
        if byte_len > self.max_bytes {
            return Err(
                GpuHistoryRecoveryError::TransitionExceedsByteLimit {
                    requested: byte_len,
                    maximum: self.max_bytes,
                },
            );
        }
        let resident: u64 = match self.resident_bytes.checked_add(byte_len) {
            Some(resident) => resident,
            None => {
                return Err(GpuHistoryRecoveryError::ByteCountOverflow);
            },
        };
        if resident > self.max_bytes {
            return Err(
                GpuHistoryRecoveryError::ByteLimitExhausted {
                    resident: self.resident_bytes,
                    requested: byte_len,
                    maximum: self.max_bytes,
                },
            );
        }
        Ok(GpuHistoryRecoveryAttachment { id: entry.id, revision, byte_len })
    }

    /// Hands the pixels of a revision to the entry that waits for them. Pixels that
    /// are refused come back.
    pub fn attach(&mut self, transition: GpuExactRasterRecoveryTransition) -> (attached: Result<
        GpuHistoryRecoveryAttachment,
        Box<GpuHistoryRecoveryAttachFailure>,
    >)
        requires
            old(self).wf(),
            transition.wf(),
        ensures
            final(self).wf(),
            match attached {
                Ok(attachment) => {
                    &&& old(self)@.attach_error(transition@) is None
                    &&& attachment == old(self)@.attachment(transition@)
                    &&& final(self)@ == old(self)@.attached(transition@)
                },
                Err(failure) => {
                    &&& old(self)@.attach_error(transition@) == Some(failure.error)
                    &&& failure.transition == transition
                    &&& *final(self) == *old(self)
                },
            },
    {
        let attachment = match self.check_attach(&transition) {
            Ok(attachment) => attachment,
            Err(error) => {
                return Err(Box::new(GpuHistoryRecoveryAttachFailure { error, transition }));
            },
        };
        let at: usize = match self.index_of_revision(transition.revision()) {
            Some(at) => at,
            None => {
                return Err(
                    Box::new(
                        GpuHistoryRecoveryAttachFailure {
                            error: GpuHistoryRecoveryError::UntrackedRevision(
                                transition.revision(),
                            ),
                            transition,
                        },
                    ),
                );
            },
        };
        let ghost model = self@;
        proof {
            lemma_updated_sums(
                model.entries,
                at as int,
                SpillModel { transition: Some(transition@), ..model.entries[at as int] },
            );
            lemma_sums_bounded(model.entries);
            assert(model.entries[at as int].valid());
        }
        let byte_len: u64 = transition.retained_byte_len();
        let entry = GpuHistoryRecoveryEntry {
            id: self.entries[at].id,
            source_revision: self.entries[at].source_revision,
            revision: self.entries[at].revision,
            transition: Some(transition),
        };
        self.entries.set(at, entry);
        proof {
            assert(self@.entries =~= model.attached(transition@).entries);
            assert(self@.keys() =~= model.keys());
            assert(ready_count(self@.entries) <= self.entries@.len()) by {
                assert forall|i: int|
                    #![trigger self@.entries[i]]
                    0 <= i < self@.entries.len() implies self@.entries[i].valid() by {
                    if i != at {
                        assert(self@.entries[i] == model.entries[i]);
                    }
                }
                lemma_sums_bounded(self@.entries);
            }
        }
        let total: usize = self.entries.len();
        self.ready_entries = self.ready_entries + 1;
        self.resident_bytes = self.resident_bytes + byte_len;
        proof {
            assert(self@.entries =~= model.attached(transition@).entries);
            assert forall|i: int|
                #![trigger self@.entries[i]]
                0 <= i < self@.entries.len() implies self@.entries[i].valid() by {
                if i != at {
                    assert(self@.entries[i] == model.entries[i]);
                }
            }
            assert forall|i: int|
                #![trigger self.entries@[i]]
                0 <= i < self.entries@.len() implies self.entries@[i].wf() by {
                if i != at {
                    assert(self.entries@[i] == old(self).entries@[i]);
                }
            }
        }
        Ok(attachment)
    }

    /// The pixels that a step through the history brings back.
    pub fn exact_command(&self, id: GpuHistoryId, direction: GpuHistoryDirection) -> (command:
        Result<&GpuExactRasterRecoveryCommand, GpuHistoryRecoveryError>)
        requires
            self.wf(),
        ensures
            match command {
                Ok(command) => {
                    &&& command.wf()
                    &&& self@.command_for(id, direction) == Ok::<
                        ExactCommandModel,
                        GpuHistoryRecoveryError,
                    >(command@)
                },
                Err(error) => self@.command_for(id, direction) == Err::<
                    ExactCommandModel,
                    GpuHistoryRecoveryError,
                >(error),
            },
    {
        let at: usize = match self.index_of_id(id) {
            Some(at) => at,
            None => {
                return Err(GpuHistoryRecoveryError::UntrackedHistoryId(id));
            },
        };
        let entry = &self.entries[at];
        assert(entry@ == self@.entries[at as int]);
        match &entry.transition {
            Some(transition) => Ok(
                match direction {
                    GpuHistoryDirection::Undo => transition.before(),
                    GpuHistoryDirection::Redo => transition.after(),
                },
            ),
            None => Err(
                GpuHistoryRecoveryError::TransitionPending { id, revision: entry.revision },
            ),
        }
    }

    pub fn entry(&self, id: GpuHistoryId) -> (entry: Option<&GpuHistoryRecoveryEntry>)
        requires
            self.wf(),
        ensures
            match entry {
                Some(entry) => entry.wf() && (find_id(self@.keys(), id) matches Some(i)
                    && self@.entries[i] == entry@),
                None => find_id(self@.keys(), id) is None,
            },
    {
        match self.index_of_id(id) {
            Some(at) => {
                assert(self.entries@[at as int]@ == self@.entries[at as int]);
                Some(&self.entries[at])
            },
            None => None,
        }
    }

    pub fn id_for_revision(&self, revision: DocumentRevision) -> (id: Option<GpuHistoryId>)
        requires
            self.wf(),
        ensures
            match id {
                Some(id) => find_revision(self@.keys(), revision) matches Some(i)
                    && self@.entries[i].id == id,
                None => find_revision(self@.keys(), revision) is None,
            },
    {
        match self.index_of_revision(revision) {
            Some(at) => {
                assert(self.entries@[at as int]@ == self@.entries[at as int]);
                Some(self.entries[at].id)
            },
            None => None,
        }
    }

    /// Gives up one entry and its pixels.
    pub fn remove(&mut self, id: GpuHistoryId) -> (removed: Option<GpuHistoryRecoveryEntry>)
        requires
            old(self).wf(),
        ensures
            final(self).wf(),
            final(self)@ == old(self)@.without(id),
            match removed {
                Some(entry) => entry.wf() && (find_id(old(self)@.keys(), id) matches Some(i)
                    && old(self)@.entries[i] == entry@),
                None => find_id(old(self)@.keys(), id) is None,
            },
    {
        let at: usize = match self.index_of_id(id) {
            Some(at) => at,
            None => {
                return None;
            },
        };
        let ghost model = self@;
        proof {
            lemma_without_valid(model, id);
            lemma_removed_sums(model.entries, at as int);
            lemma_sums_bounded(model.without(id).entries);
            assert(model.entries[at as int].valid());
        }
        let entry = self.entries.remove(at);
        assert(entry@ == model.entries[at as int]);
        assert(self@.entries =~= model.without(id).entries);
        match &entry.transition {
            Some(transition) => {
                self.ready_entries = self.ready_entries - 1;
                self.resident_bytes = self.resident_bytes - transition.retained_byte_len();
            },
            None => {},
        }
        proof {
            assert(self@.entries =~= model.without(id).entries);
            assert forall|i: int|
                #![trigger self.entries@[i]]
                0 <= i < self.entries@.len() implies self.entries@[i].wf() by {
                if i < at {
                    assert(self.entries@[i] == old(self).entries@[i]);
                } else {
                    assert(self.entries@[i] == old(self).entries@[i + 1]);
                }
            }
        }
        Some(entry)
    }

    /// Checks that an entry can take the place of others.
    pub fn check_replace(
        &self,
        evicted_ids: &Vec<GpuHistoryId>,
        id: GpuHistoryId,
        source_revision: DocumentRevision,
        revision: DocumentRevision,
    ) -> (checked: Result<(), GpuHistoryRecoveryError>)
        requires
            self.wf(),
        ensures
            match checked {
                Ok(_) => self@.replace_error(evicted_ids@, id, source_revision, revision) is None,
                Err(error) => self@.replace_error(evicted_ids@, id, source_revision, revision)
                    == Some(error),
            },
    {
        let mut keys = self.keys();
        let mut i: usize = 0;
        assert(evicted_ids@.subrange(0, 0) =~= Seq::<GpuHistoryId>::empty());
        while i < evicted_ids.len()
            invariant
                i <= evicted_ids@.len(),
                keys@ == keys_without(self@.keys(), evicted_ids@.subrange(0, i as int)),
                eviction_error(self@.keys(), evicted_ids@.subrange(0, i as int)) is None,
            decreases evicted_ids@.len() - i,
        {
            proof {
                let prefix = evicted_ids@.subrange(0, i as int + 1);
                assert(prefix.drop_last() =~= evicted_ids@.subrange(0, i as int));
                assert(prefix.last() == evicted_ids@[i as int]);
            }
            match position_of_id(&keys, evicted_ids[i]) {
                Some(at) => {
                    keys.remove(at);
                },
                None => {
                    proof {
                        lemma_eviction_fails(self@.keys(), evicted_ids@, i as int + 1);
                    }
                    return Err(GpuHistoryRecoveryError::UntrackedHistoryId(evicted_ids[i]));
                },
            }
            i += 1;
        }
        assert(evicted_ids@.subrange(0, i as int) =~= evicted_ids@);
        check_key(&keys, self.max_entries, id, source_revision, revision)
    }

    /// Puts a new entry in the place of others, or leaves all as it is.
    pub fn replace(
        &mut self,
        evicted_ids: &Vec<GpuHistoryId>,
        id: GpuHistoryId,
        source_revision: DocumentRevision,
        revision: DocumentRevision,
    ) -> (replacement: Result<GpuHistoryRecoveryReplacement, GpuHistoryRecoveryError>)
        requires
            old(self).wf(),
        ensures
            final(self).wf(),
            match replacement {
                Ok(replacement) => {
                    &&& old(self)@.replace_error(evicted_ids@, id, source_revision, revision)
                        is None
                    &&& final(self)@ == old(self)@.replaced(
                        evicted_ids@,
                        id,
                        source_revision,
                        revision,
                    )
                    &&& spill_models(replacement.evicted@) == old(self)@.evicted(evicted_ids@)
                    &&& replacement.freed_bytes == spill_bytes(old(self)@.entries) - spill_bytes(
                        final(self)@.entries,
                    )
                },
                Err(error) => {
                    &&& old(self)@.replace_error(evicted_ids@, id, source_revision, revision)
                        == Some(error)
                    &&& *final(self) == *old(self)
                },
            },
    {
        match self.check_replace(evicted_ids, id, source_revision, revision) {
            Ok(_) => {},
            Err(error) => {
                return Err(error);
            },
        }
        let ghost model = self@;
        let replacement = self.remove_all(evicted_ids);
        proof {
            lemma_without_all_valid(model, evicted_ids@);
            lemma_registered_valid(self@, id, source_revision, revision);
        }
        match self.register(id, source_revision, revision) {
            Ok(_) => Ok(replacement),
            Err(error) => Err(error),
        }
    }

    /// Gives up the named entries, as far as there are such.
    pub fn remove_all(&mut self, evicted_ids: &Vec<GpuHistoryId>) -> (replacement:
        GpuHistoryRecoveryReplacement)
        requires
            old(self).wf(),
        ensures
            final(self).wf(),
            final(self)@ == old(self)@.without_all(evicted_ids@),
            spill_models(replacement.evicted@) == old(self)@.evicted(evicted_ids@),
            replacement.freed_bytes == spill_bytes(old(self)@.entries) - spill_bytes(
                final(self)@.entries,
            ),
    {
        let ghost model = self@;
        let resident: u64 = self.resident_bytes;
        let mut evicted: Vec<GpuHistoryRecoveryEntry> = Vec::new();
        let mut i: usize = 0;
        assert(evicted_ids@.subrange(0, 0) =~= Seq::<GpuHistoryId>::empty());
        assert(spill_models(evicted@) =~= Seq::<SpillModel>::empty());
        while i < evicted_ids.len()
            invariant
                self.wf(),
                model.valid(),
                resident == spill_bytes(model.entries),
                i <= evicted_ids@.len(),
                self@ == model.without_all(evicted_ids@.subrange(0, i as int)),
                spill_models(evicted@) == model.evicted(evicted_ids@.subrange(0, i as int)),
                spill_bytes(self@.entries) <= resident,
            decreases evicted_ids@.len() - i,
        {
            let ghost held = evicted@;
            proof {
                let prefix = evicted_ids@.subrange(0, i as int + 1);
                assert(prefix.drop_last() =~= evicted_ids@.subrange(0, i as int));
                assert(prefix.last() == evicted_ids@[i as int]);
                lemma_find_id(self@.keys(), evicted_ids@[i as int]);
                match find_id(self@.keys(), evicted_ids@[i as int]) {
                    Some(at) => {
                        lemma_removed_sums(self@.entries, at);
                        assert(self@.entries[at].valid());
                    },
                    None => {},
                }
            }
            match self.remove(evicted_ids[i]) {
                Some(entry) => {
                    evicted.push(entry);
                    assert(spill_models(evicted@) =~= spill_models(held).push(entry@));
                },
                None => {},
            }
            i += 1;
        }
        assert(evicted_ids@.subrange(0, i as int) =~= evicted_ids@);
        let freed_bytes: u64 = resident - self.resident_bytes;
        GpuHistoryRecoveryReplacement { freed_bytes, evicted }
    }

    /// Gives up all entries, in the order of their names.
    pub fn clear(&mut self) -> (entries: Vec<GpuHistoryRecoveryEntry>)
        requires
            old(self).wf(),
        ensures
            final(self).wf(),
            spill_models(entries@) == old(self)@.entries,
            final(self)@ == (SpillsModel { entries: Seq::empty(), ..old(self)@ }),
    {
        let entries = self.entries.split_off(0);
        self.ready_entries = 0;
        self.resident_bytes = 0;
        assert(entries@ =~= old(self).entries@);
        assert(self@.entries =~= Seq::<SpillModel>::empty());
        entries
    }

    pub fn len(&self) -> (len: usize)
        ensures
            len == self@.entries.len(),
    {
        self.entries.len()
    }

    pub fn is_empty(&self) -> (empty: bool)
        ensures
            empty == (self@.entries.len() == 0),
    {
        self.entries.len() == 0
    }

    pub fn ready_len(&self) -> (len: usize)
        requires
            self.wf(),
        ensures
            len == ready_count(self@.entries),
    {
        self.ready_entries
    }

    pub fn pending_len(&self) -> (len: usize)
        requires
            self.wf(),
        ensures
            len == self@.entries.len() - ready_count(self@.entries),
    {
        proof {
            lemma_sums_bounded(self@.entries);
        }
        self.entries.len() - self.ready_entries
    }

    pub fn resident_bytes(&self) -> (bytes: u64)
        requires
            self.wf(),
        ensures
            bytes == spill_bytes(self@.entries),
    {
        self.resident_bytes
    }

    pub fn max_entries(&self) -> (entries: usize)
        ensures
            entries == self@.max_entries,
    {
        self.max_entries
    }

    pub fn max_bytes(&self) -> (bytes: u64)
        ensures
            bytes == self@.max_bytes,
    {
        self.max_bytes
    }
}

impl Default for GpuHistoryRecoverySpills {
    fn default() -> (spills: GpuHistoryRecoverySpills)
        ensures
            spills.wf(),
            spills@ == (SpillsModel {
                entries: Seq::empty(),
                max_entries: DEFAULT_GPU_HISTORY_RECOVERY_ENTRIES as int,
                max_bytes: DEFAULT_GPU_HISTORY_RECOVERY_BYTES as int,
            }),
    {
        let spills = GpuHistoryRecoverySpills {
            entries: Vec::new(),
            ready_entries: 0,
            resident_bytes: 0,
            max_entries: DEFAULT_GPU_HISTORY_RECOVERY_ENTRIES,
            max_bytes: DEFAULT_GPU_HISTORY_RECOVERY_BYTES,
        };
        assert(spills@.entries =~= Seq::<SpillModel>::empty());
        spills
    }
}

proof fn lemma_eviction_fails(keys: Seq<SpillKey>, evicted: Seq<GpuHistoryId>, n: int)
    requires
        0 <= n <= evicted.len(),
        eviction_error(keys, evicted.subrange(0, n)) is Some,
    ensures
        eviction_error(keys, evicted) == eviction_error(keys, evicted.subrange(0, n)),
    decreases evicted.len() - n,
{
    if n < evicted.len() {
        assert(evicted.subrange(0, n + 1).drop_last() =~= evicted.subrange(0, n));
        lemma_eviction_fails(keys, evicted, n + 1);
    } else {
        assert(evicted.subrange(0, n) =~= evicted);
    }
}

/// Undo and redo of one entry bring back the two sides of the same change.
pub proof fn law_undo_and_redo_select_opposite_sides(
    spills: SpillsModel,
    id: GpuHistoryId,
    transition: TransitionModel,
)
    requires
        spills.valid(),
        spills.attach_error(transition) is None,
        spills.attachment(transition).id == id,
    ensures
        spills.attached(transition).command_for(id, GpuHistoryDirection::Undo) == Ok::<
            ExactCommandModel,
            GpuHistoryRecoveryError,
        >(transition.before),
        spills.attached(transition).command_for(id, GpuHistoryDirection::Redo) == Ok::<
            ExactCommandModel,
            GpuHistoryRecoveryError,
        >(transition.after),
{
    let next = spills.attached(transition);
    lemma_find_revision(spills.keys(), transition.revision);
    let i = find_revision(spills.keys(), transition.revision)->0;
    assert(next.keys() =~= spills.keys());
    assert(spills.keys()[i].id == id);
    lemma_find_id(spills.keys(), id);
    let j = find_id(spills.keys(), id)->0;
    assert(spills.keys()[j].id == id);
}

/// Spills never hold more entries, nor more bytes, than their limits allow.
pub proof fn law_spills_stay_within_their_limits(spills: &GpuHistoryRecoverySpills)
    requires
        spills.wf(),
    ensures
        spills@.entries.len() <= spills@.max_entries,
        spill_bytes(spills@.entries) <= spills@.max_bytes,
{
}

} // verus!
