//! The edits that can be undone and redone.

use crate::document::LayerId;
use crate::document_metadata::{DocumentMetadataEdit, EditModel};
use crate::gpu_atlas::{slot_of_key, AtlasGeometry, LayerTileKey, SparseAtlasPlanner};
use crate::gpu_document_target::{
    swap_encoded, swap_fails, swap_token_error, swap_undone, EncodedGpuUndoSwap, EncodedSwapModel,
    GpuDocumentTarget, GpuDocumentTargetError, GpuUndoSwapStats,
};
use crate::gpu_document_undo::{swapped_states, GpuDocumentMemento, MementoModel};
use crate::keyed_map::Key;
use vstd::prelude::*;

verus! {

pub const DEFAULT_GPU_HISTORY_ENTRIES: usize = 256;

pub const DEFAULT_GPU_HISTORY_BYTES: u64 = 64 * 1024 * 1024;

/// One entry of the history.
#[derive(Clone, Copy, Debug, PartialEq, Eq, PartialOrd, Ord, Hash, Structural)]
pub struct GpuHistoryId(pub u64);

impl GpuHistoryId {
    pub fn from_raw(value: u64) -> (id: GpuHistoryId)
        ensures
            id.0 == value,
    {
        GpuHistoryId(value)
    }

    pub fn get(self) -> (value: u64)
        ensures
            value == self.0,
    {
        self.0
    }
}

/// Which way the history is walked.
#[derive(Clone, Copy, Debug, PartialEq, Eq, Structural)]
pub enum GpuHistoryDirection {
    Undo,
    Redo,
}

#[derive(Clone, Copy, Debug, PartialEq, Eq, Structural)]
pub enum GpuHistoryEntryKind {
    Raster,
    Metadata,
}

#[derive(Clone, Copy, Debug, PartialEq, Eq, Structural)]
pub enum GpuDocumentHistoryError {
    InvalidMaximumEntries,
    InvalidMaximumBytes,
    OperationPending(GpuHistoryId),
    NoPendingOperation,
    EntryKindMismatch { expected: GpuHistoryEntryKind, actual: GpuHistoryEntryKind },
}

#[derive(Clone, Copy, Debug, PartialEq, Eq, Structural)]
pub enum GpuHistoryRecordError {
    OperationPending(GpuHistoryId),
    HistoryIdExhausted,
    ByteLimitExceeded { requested: u64, maximum: u64 },
    /// A tile of the memento does not lie where the memento says.
    NotResident(LayerTileKey),
}

#[derive(Debug)]
pub(crate) enum GpuHistoryPayload {
    Raster(GpuDocumentMemento),
    Metadata(DocumentMetadataEdit),
}

/// An edit that can be undone or redone.
#[derive(Debug)]
pub struct GpuHistoryEntry {
    pub(crate) id: GpuHistoryId,
    pub(crate) payload: GpuHistoryPayload,
    /// Whether the pixels are kept compressed elsewhere, and no longer on the device.
    pub(crate) archived: bool,
}

pub enum PayloadModel {
    Raster(MementoModel),
    Metadata(EditModel),
}

pub struct EntryModel {
    pub id: GpuHistoryId,
    pub payload: PayloadModel,
    pub archived: bool,
}

impl View for GpuHistoryEntry {
    type V = EntryModel;

    open(crate) spec fn view(&self) -> EntryModel {
        EntryModel {
            id: self.id,
            payload: match self.payload {
                GpuHistoryPayload::Raster(memento) => PayloadModel::Raster(memento@),
                GpuHistoryPayload::Metadata(edit) => PayloadModel::Metadata(edit@),
            },
            archived: self.archived,
        }
    }
}

impl EntryModel {
    pub open spec fn kind(self) -> GpuHistoryEntryKind {
        match self.payload {
            PayloadModel::Raster(_) => GpuHistoryEntryKind::Raster,
            PayloadModel::Metadata(_) => GpuHistoryEntryKind::Metadata,
        }
    }

    /// What the pixels of the entry take up on the device while they are there.
    pub open spec fn full_bytes(self) -> int {
        match self.payload {
            PayloadModel::Raster(memento) => memento.plan.byte_len,
            PayloadModel::Metadata(_) => 0,
        }
    }

    /// What the entry takes up on the device.
    pub open spec fn bytes(self) -> int {
        if self.archived {
            0
        } else {
            self.full_bytes()
        }
    }

    /// Whether the entry needs the pixels or the name of the layer.
    pub open spec fn references(self, layer: LayerId) -> bool {
        match self.payload {
            PayloadModel::Raster(memento) => memento_references(memento, layer),
            PayloadModel::Metadata(edit) => edit.layer() == layer,
        }
    }
}

pub open spec fn memento_references(memento: MementoModel, layer: LayerId) -> bool {
    exists|i: int|
        0 <= i < memento.plan.regions.len() && (#[trigger] memento.plan.regions[i]).key.layer
            == layer
}

pub open(crate) spec fn entry_models(entries: Seq<GpuHistoryEntry>) -> Seq<EntryModel> {
    Seq::new(entries.len(), |i: int| entries[i]@)
}

pub open spec fn entries_bytes(entries: Seq<EntryModel>) -> int
    decreases entries.len(),
{
    if entries.len() == 0 {
        0
    } else {
        entries_bytes(entries.drop_last()) + entries.last().bytes()
    }
}

/// The pixels of no entry take up more than `limit` by themselves.
pub open spec fn each_fits(entries: Seq<EntryModel>, limit: u64) -> bool {
    forall|i: int| 0 <= i < entries.len() ==> (#[trigger] entries[i]).full_bytes() <= limit
}

/// The names of the entries that hold pixels.
pub open spec fn raster_ids(entries: Seq<EntryModel>) -> Seq<GpuHistoryId>
    decreases entries.len(),
{
    if entries.len() == 0 {
        Seq::empty()
    } else if entries.last().kind() == GpuHistoryEntryKind::Raster {
        raster_ids(entries.drop_last()).push(entries.last().id)
    } else {
        raster_ids(entries.drop_last())
    }
}

pub open spec fn any_references(entries: Seq<EntryModel>, layer: LayerId) -> bool {
    exists|i: int| 0 <= i < entries.len() && (#[trigger] entries[i]).references(layer)
}

impl GpuHistoryEntry {
    pub open(crate) spec fn wf(self) -> bool {
        match self.payload {
            GpuHistoryPayload::Raster(memento) => memento.wf(),
            GpuHistoryPayload::Metadata(_) => true,
        }
    }

    pub fn id(&self) -> (id: GpuHistoryId)
        ensures
            id == self@.id,
    {
        self.id
    }

    pub fn kind(&self) -> (kind: GpuHistoryEntryKind)
        ensures
            kind == self@.kind(),
    {
        match &self.payload {
            GpuHistoryPayload::Raster(_) => GpuHistoryEntryKind::Raster,
            GpuHistoryPayload::Metadata(_) => GpuHistoryEntryKind::Metadata,
        }
    }

    pub fn byte_len(&self) -> (len: u64)
        ensures
            len == self@.bytes(),
    {
        if self.archived {
            0
        } else {
            self.full_byte_len()
        }
    }

    pub(crate) fn full_byte_len(&self) -> (len: u64)
        ensures
            len == self@.full_bytes(),
    {
        match &self.payload {
            GpuHistoryPayload::Raster(memento) => memento.byte_len(),
            GpuHistoryPayload::Metadata(_) => 0,
        }
    }

    fn references(&self, layer: LayerId) -> (references: bool)
        ensures
            references == self@.references(layer),
    {
        match &self.payload {
            GpuHistoryPayload::Raster(memento) => {
                let regions = memento.plan().regions();
                let mut i: usize = 0;
                while i < regions.len()
                    invariant
                        regions@ == memento@.plan.regions,
                        self@.payload == PayloadModel::Raster(memento@),
                        i <= regions@.len(),
                        forall|k: int|
                            0 <= k < i ==> (#[trigger] regions@[k]).key.layer != layer,
                    decreases regions@.len() - i,
                {
                    if regions[i].key.layer.0 == layer.0 {
                        assert(memento@.plan.regions[i as int].key.layer == layer);
                        assert(memento_references(memento@, layer));
                        return true;
                    }
                    i += 1;
                }
                false
            },
            GpuHistoryPayload::Metadata(edit) => edit.layer().0 == layer.0,
        }
    }

    /// The layers that the entry needs. A layer is named as often as it has tiles there.
    pub fn referenced_layers(&self) -> (layers: Vec<LayerId>)
        ensures
            forall|layer: LayerId| #[trigger]
                layers@.contains(layer) <==> self@.references(layer),
    {
        let mut layers: Vec<LayerId> = Vec::new();
        match &self.payload {
            GpuHistoryPayload::Raster(memento) => {
                let regions = memento.plan().regions();
                let mut i: usize = 0;
                while i < regions.len()
                    invariant
                        regions@ == memento@.plan.regions,
                        i <= regions@.len(),
                        layers@.len() == i,
                        forall|k: int|
                            0 <= k < i ==> #[trigger] layers@[k] == regions@[k].key.layer,
                    decreases regions@.len() - i,
                {
                    layers.push(regions[i].key.layer);
                    i += 1;
                }
                proof {
                    assert(self@.payload == PayloadModel::Raster(memento@));
                    assert forall|layer: LayerId| #[trigger]
                        layers@.contains(layer) == self@.references(layer) by {
                        if layers@.contains(layer) {
                            let k = choose|k: int| 0 <= k < layers@.len() && layers@[k] == layer;
                            assert(memento@.plan.regions[k].key.layer == layer);
                            assert(memento_references(memento@, layer));
                        }
                        if self@.references(layer) {
                            let k = choose|k: int|
                                0 <= k < memento@.plan.regions.len() && (
                                #[trigger] memento@.plan.regions[k]).key.layer == layer;
                            assert(layers@[k] == layer);
                        }
                    }
                }
            },
            GpuHistoryPayload::Metadata(edit) => {
                layers.push(edit.layer());
                proof {
                    assert(layers@[0] == edit@.layer());
                }
            },
        }
        layers
    }
}

/// What will happen when an edit is recorded.
#[derive(Debug)]
pub struct GpuHistoryRecordPreview {
    pub(crate) id: GpuHistoryId,
    pub(crate) evicted_raster_ids: Vec<GpuHistoryId>,
}

pub struct PreviewModel {
    pub id: GpuHistoryId,
    pub evicted: Seq<GpuHistoryId>,
}

impl View for GpuHistoryRecordPreview {
    type V = PreviewModel;

    open(crate) spec fn view(&self) -> PreviewModel {
        PreviewModel { id: self.id, evicted: self.evicted_raster_ids@ }
    }
}

impl GpuHistoryRecordPreview {
    pub fn id(&self) -> (id: GpuHistoryId)
        ensures
            id == self@.id,
    {
        self.id
    }

    pub fn evicted_raster_ids(&self) -> (ids: &Vec<GpuHistoryId>)
        ensures
            ids@ == self@.evicted,
    {
        &self.evicted_raster_ids
    }

    pub fn same(&self, other: &GpuHistoryRecordPreview) -> (equal: bool)
        ensures
            equal == (self@ == other@),
    {
        if self.id.0 != other.id.0 || self.evicted_raster_ids.len()
            != other.evicted_raster_ids.len() {
            return false;
        }
        let mut i: usize = 0;
        while i < self.evicted_raster_ids.len()
            invariant
                i <= self.evicted_raster_ids@.len(),
                self.evicted_raster_ids@.len() == other.evicted_raster_ids@.len(),
                forall|k: int|
                    0 <= k < i ==> self.evicted_raster_ids@[k] == other.evicted_raster_ids@[k],
            decreases self.evicted_raster_ids@.len() - i,
        {
            if self.evicted_raster_ids[i].0 != other.evicted_raster_ids[i].0 {
                assert(self@.evicted[i as int] != other@.evicted[i as int]);
                return false;
            }
            i += 1;
        }
        assert(self@.evicted =~= other@.evicted);
        true
    }
}

/// An edit that was recorded, and what had to go for it.
#[derive(Debug)]
pub struct GpuHistoryRecord {
    pub id: GpuHistoryId,
    pub evicted: Vec<GpuHistoryEntry>,
}

/// A memento that could not be recorded, and why.
#[derive(Debug)]
pub struct GpuHistoryRecordFailure {
    pub error: GpuHistoryRecordError,
    pub memento: GpuDocumentMemento,
}

/// The edits that can be undone, the ones that can be redone, and the one that is
/// being undone or redone.
#[derive(Debug)]
pub struct GpuDocumentHistory {
    pub(crate) undo: Vec<GpuHistoryEntry>,
    pub(crate) redo: Vec<GpuHistoryEntry>,
    pub(crate) pending: Option<(GpuHistoryEntry, GpuHistoryDirection)>,
    pub(crate) next_id: u64,
    pub(crate) max_entries: usize,
    pub(crate) max_bytes: u64,
    pub(crate) resident_bytes: u64,
}

pub struct HistoryModel {
    pub undo: Seq<EntryModel>,
    pub redo: Seq<EntryModel>,
    pub pending: Option<(EntryModel, GpuHistoryDirection)>,
    pub next_id: u64,
    pub max_entries: usize,
    pub max_bytes: u64,
}

impl View for GpuDocumentHistory {
    type V = HistoryModel;

    open(crate) spec fn view(&self) -> HistoryModel {
        HistoryModel {
            undo: entry_models(self.undo@),
            redo: entry_models(self.redo@),
            pending: match self.pending {
                Some((entry, direction)) => Some((entry@, direction)),
                None => None,
            },
            next_id: self.next_id,
            max_entries: self.max_entries,
            max_bytes: self.max_bytes,
        }
    }
}

/// How many of the oldest entries have to go so that one more fits.
pub open spec fn evictions(undo: Seq<EntryModel>, bytes: int, max_entries: int, max_bytes: int) -> int
    decreases undo.len(),
{
    if undo.len() == 0 || (undo.len() < max_entries && entries_bytes(undo) + bytes <= max_bytes) {
        0
    } else {
        1 + evictions(undo.drop_first(), bytes, max_entries, max_bytes)
    }
}

impl HistoryModel {
    pub open spec fn pending_bytes(self) -> int {
        match self.pending {
            Some((entry, _)) => entry.bytes(),
            None => 0,
        }
    }

    pub open spec fn pending_count(self) -> int {
        if self.pending is Some {
            1
        } else {
            0
        }
    }

    pub open spec fn resident(self) -> int {
        entries_bytes(self.undo) + entries_bytes(self.redo) + self.pending_bytes()
    }

    /// The entries and their bytes stay within the limits. That holds of the pixels of each entry
    /// too, where they are no longer on the device.
    pub open spec fn valid(self) -> bool {
        &&& self.max_entries > 0
        &&& self.undo.len() + self.redo.len() + self.pending_count() <= self.max_entries
        &&& self.resident() <= self.max_bytes
        &&& each_fits(self.undo, self.max_bytes)
        &&& each_fits(self.redo, self.max_bytes)
        &&& self.pending matches Some((entry, _)) ==> entry.full_bytes() <= self.max_bytes
    }

    pub open spec fn top(self, direction: GpuHistoryDirection) -> Option<EntryModel> {
        let stack = match direction {
            GpuHistoryDirection::Undo => self.undo,
            GpuHistoryDirection::Redo => self.redo,
        };
        if stack.len() == 0 {
            None
        } else {
            Some(stack.last())
        }
    }

    pub open spec fn pending_error(self) -> Option<GpuDocumentHistoryError> {
        match self.pending {
            Some((entry, _)) => Some(GpuDocumentHistoryError::OperationPending(entry.id)),
            None => None,
        }
    }

    pub open spec fn references(self, layer: LayerId) -> bool {
        ||| any_references(self.undo, layer)
        ||| any_references(self.redo, layer)
        ||| (self.pending matches Some((entry, _)) && entry.references(layer))
    }

    /// Why an edit of that size is not recorded, if it is not.
    pub open spec fn record_error(self, bytes: int) -> Option<GpuHistoryRecordError> {
        match self.pending {
            Some((entry, _)) => Some(GpuHistoryRecordError::OperationPending(entry.id)),
            None => if self.next_id == u64::MAX {
                Some(GpuHistoryRecordError::HistoryIdExhausted)
            } else if bytes > self.max_bytes {
                Some(
                    GpuHistoryRecordError::ByteLimitExceeded {
                        requested: bytes as u64,
                        maximum: self.max_bytes,
                    },
                )
            } else {
                None
            },
        }
    }

    pub open spec fn evicted_count(self, bytes: int) -> int {
        evictions(self.undo, bytes, self.max_entries as int, self.max_bytes as int)
    }

    /// What has to go when an edit of that size is recorded: everything that could
    /// be redone, and the oldest edits.
    pub open spec fn evicted(self, bytes: int) -> Seq<EntryModel> {
        self.redo + self.undo.subrange(0, self.evicted_count(bytes))
    }

    pub open spec fn preview(self, bytes: int) -> PreviewModel {
        PreviewModel {
            id: GpuHistoryId(self.next_id),
            evicted: raster_ids(self.evicted(bytes)),
        }
    }

    /// The history with one more edit.
    pub open spec fn recorded(self, payload: PayloadModel, bytes: int) -> HistoryModel {
        HistoryModel {
            undo: self.undo.subrange(self.evicted_count(bytes), self.undo.len() as int).push(
                EntryModel { id: GpuHistoryId(self.next_id), payload, archived: false },
            ),
            redo: Seq::empty(),
            next_id: (self.next_id + 1) as u64,
            ..self
        }
    }

    /// The history while its newest edit in that direction is being undone or redone.
    pub open spec fn begun(self, direction: GpuHistoryDirection) -> HistoryModel {
        match self.top(direction) {
            None => self,
            Some(entry) => match direction {
                GpuHistoryDirection::Undo => HistoryModel {
                    undo: self.undo.drop_last(),
                    pending: Some((entry, direction)),
                    ..self
                },
                GpuHistoryDirection::Redo => HistoryModel {
                    redo: self.redo.drop_last(),
                    pending: Some((entry, direction)),
                    ..self
                },
            },
        }
    }

    /// The history once the pending edit lies on that stack.
    pub open spec fn pending_onto(self, direction: GpuHistoryDirection) -> HistoryModel {
        let entry = (self.pending->0).0;
        match direction {
            GpuHistoryDirection::Undo => HistoryModel {
                undo: self.undo.push(entry),
                pending: None,
                ..self
            },
            GpuHistoryDirection::Redo => HistoryModel {
                redo: self.redo.push(entry),
                pending: None,
                ..self
            },
        }
    }

    /// The history once what was undone can be redone, or the other way round.
    pub open spec fn finished(self) -> HistoryModel {
        self.pending_onto(opposite((self.pending->0).1))
    }

    /// The history as it was before the pending edit was begun.
    pub open spec fn cancelled(self) -> HistoryModel {
        self.pending_onto((self.pending->0).1)
    }

    pub open spec fn with_pending_memento(self, memento: MementoModel) -> HistoryModel {
        HistoryModel {
            pending: match self.pending {
                Some((entry, direction)) => Some(
                    (EntryModel { payload: PayloadModel::Raster(memento), ..entry }, direction),
                ),
                None => None,
            },
            ..self
        }
    }
}

pub open spec fn opposite(direction: GpuHistoryDirection) -> GpuHistoryDirection {
    match direction {
        GpuHistoryDirection::Undo => GpuHistoryDirection::Redo,
        GpuHistoryDirection::Redo => GpuHistoryDirection::Undo,
    }
}

/// The first region of the memento that does not lie where the memento says.
pub open spec fn misplaced(
    geometry: AtlasGeometry,
    places: Seq<Option<LayerTileKey>>,
    memento: MementoModel,
    n: int,
) -> Option<LayerTileKey>
    decreases n,
{
    if n <= 0 {
        None
    } else {
        match misplaced(geometry, places, memento, n - 1) {
            Some(key) => Some(key),
            None => {
                let region = memento.plan.regions[n - 1];
                let found = match slot_of_key(places, region.key) {
                    Some(index) => Some(geometry.slot(index)),
                    None => None,
                };
                if found != Some(region.slot) {
                    Some(region.key)
                } else {
                    None
                }
            },
        }
    }
}

/// Why a memento is not recorded, if it is not.
pub open spec fn memento_error(
    model: HistoryModel,
    geometry: AtlasGeometry,
    places: Seq<Option<LayerTileKey>>,
    memento: MementoModel,
) -> Option<GpuHistoryRecordError> {
    match model.record_error(memento.plan.byte_len) {
        Some(error) => Some(error),
        None => match misplaced(geometry, places, memento, memento.plan.regions.len() as int) {
            Some(key) => Some(GpuHistoryRecordError::NotResident(key)),
            None => None,
        },
    }
}

proof fn lemma_entry_front(entries: Seq<EntryModel>)
    requires
        entries.len() > 0,
    ensures
        entries_bytes(entries) == entries[0].bytes() + entries_bytes(entries.drop_first()),
    decreases entries.len(),
{
    if entries.len() > 1 {
        lemma_entry_front(entries.drop_last());
        assert(entries.drop_last().drop_first() =~= entries.drop_first().drop_last());
        assert(entries.drop_first().last() == entries.last());
    } else {
        assert(entries.drop_first() =~= Seq::empty());
        assert(entries.drop_last() =~= Seq::empty());
    }
}

proof fn lemma_bytes_nonnegative(entries: Seq<GpuHistoryEntry>)
    ensures
        entries_bytes(entry_models(entries)) >= 0,
    decreases entries.len(),
{
    if entries.len() > 0 {
        lemma_bytes_nonnegative(entries.drop_last());
        assert(entry_models(entries.drop_last()) =~= entry_models(entries).drop_last());
        let last = entries.last();
        assert(entry_models(entries).last() == last@);
    }
}

proof fn lemma_misplaced(geometry: AtlasGeometry, places: Seq<Option<LayerTileKey>>, memento: MementoModel, at: int, n: int)
    requires
        0 <= at <= n,
        misplaced(geometry, places, memento, at) is Some,
    ensures
        misplaced(geometry, places, memento, n) == misplaced(geometry, places, memento, at),
    decreases n - at,
{
    if at < n {
        lemma_misplaced(geometry, places, memento, at + 1, n);
    }
}

/// What remains after the evictions fits, together with the new edit.
pub(crate) proof fn lemma_evictions(undo: Seq<EntryModel>, bytes: int, max_entries: int, max_bytes: int)
    requires
        max_entries > 0,
        bytes <= max_bytes,
    ensures
        ({
            let k = evictions(undo, bytes, max_entries, max_bytes);
            &&& 0 <= k <= undo.len()
            &&& undo.len() - k < max_entries
            &&& entries_bytes(undo.subrange(k, undo.len() as int)) + bytes <= max_bytes
        }),
    decreases undo.len(),
{
    let k = evictions(undo, bytes, max_entries, max_bytes);
    if undo.len() == 0 {
        assert(undo.subrange(0, 0) =~= Seq::empty());
    } else if undo.len() < max_entries && entries_bytes(undo) + bytes <= max_bytes {
        assert(undo.subrange(0, undo.len() as int) =~= undo);
    } else {
        lemma_evictions(undo.drop_first(), bytes, max_entries, max_bytes);
        assert(undo.drop_first().subrange(k - 1, undo.len() - 1) =~= undo.subrange(
            k,
            undo.len() as int,
        ));
    }
}

proof fn lemma_split_bytes(entries: Seq<EntryModel>, k: int)
    requires
        0 <= k <= entries.len(),
    ensures
        entries_bytes(entries) == entries_bytes(entries.subrange(0, k)) + entries_bytes(
            entries.subrange(k, entries.len() as int),
        ),
    decreases entries.len() - k,
{
    let n = entries.len() as int;
    if k == n {
        assert(entries.subrange(0, k) =~= entries);
        assert(entries.subrange(k, n) =~= Seq::empty());
    } else {
        lemma_split_bytes(entries, k + 1);
        lemma_entry_front(entries.subrange(k, n));
        assert(entries.subrange(k, n).drop_first() =~= entries.subrange(k + 1, n));
        assert(entries.subrange(0, k + 1).drop_last() =~= entries.subrange(0, k));
    }
}

proof fn lemma_append_ids(first: Seq<EntryModel>, second: Seq<EntryModel>)
    ensures
        raster_ids(first + second) == raster_ids(first) + raster_ids(second),
    decreases second.len(),
{
    if second.len() == 0 {
        assert(first + second =~= first);
        assert(raster_ids(first) + raster_ids(second) =~= raster_ids(first));
    } else {
        lemma_append_ids(first, second.drop_last());
        assert((first + second).drop_last() =~= first + second.drop_last());
        assert((first + second).last() == second.last());
        assert(raster_ids(first + second) =~= raster_ids(first) + raster_ids(second));
    }
}

fn raster_ids_of(entries: &Vec<GpuHistoryEntry>, count: usize) -> (ids: Vec<GpuHistoryId>)
    requires
        count <= entries@.len(),
    ensures
        ids@ == raster_ids(entry_models(entries@).subrange(0, count as int)),
{
    let ghost models = entry_models(entries@);
    let mut ids: Vec<GpuHistoryId> = Vec::new();
    let mut i: usize = 0;
    assert(models.subrange(0, 0) =~= Seq::empty());
    while i < count
        invariant
            models == entry_models(entries@),
            i <= count <= entries@.len(),
            ids@ == raster_ids(models.subrange(0, i as int)),
        decreases count - i,
    {
        proof {
            assert(models.subrange(0, i as int + 1).drop_last() =~= models.subrange(0, i as int));
            assert(models[i as int] == entries@[i as int]@);
        }
        if entries[i].kind() == GpuHistoryEntryKind::Raster {
            ids.push(entries[i].id);
        }
        i += 1;
    }
    ids
}

impl GpuDocumentHistory {
    pub open(crate) spec fn wf(self) -> bool {
        &&& self@.valid()
        &&& self.resident_bytes == self@.resident()
        &&& forall|i: int| 0 <= i < self.undo@.len() ==> (#[trigger] self.undo@[i]).wf()
        &&& forall|i: int| 0 <= i < self.redo@.len() ==> (#[trigger] self.redo@[i]).wf()
        &&& self.pending matches Some((entry, _)) ==> entry.wf()
    }

    pub fn new(max_entries: usize, max_bytes: u64) -> (history: Result<
        GpuDocumentHistory,
        GpuDocumentHistoryError,
    >)
        ensures
            match history {
                Ok(history) => {
                    &&& max_entries > 0
                    &&& max_bytes > 0
                    &&& history.wf()
                    &&& history@ == (HistoryModel {
                        undo: Seq::empty(),
                        redo: Seq::empty(),
                        pending: None,
                        next_id: 1,
                        max_entries,
                        max_bytes,
                    })
                },
                Err(error) => if max_entries == 0 {
                    error == GpuDocumentHistoryError::InvalidMaximumEntries
                } else {
                    max_bytes == 0 && error == GpuDocumentHistoryError::InvalidMaximumBytes
                },
            },
    {
        if max_entries == 0 {
            return Err(GpuDocumentHistoryError::InvalidMaximumEntries);
        }
        if max_bytes == 0 {
            return Err(GpuDocumentHistoryError::InvalidMaximumBytes);
        }
        let history = GpuDocumentHistory {
            undo: Vec::new(),
            redo: Vec::new(),
            pending: None,
            next_id: 1,
            max_entries,
            max_bytes,
            resident_bytes: 0,
        };
        assert(history@.undo =~= Seq::empty());
        assert(history@.redo =~= Seq::empty());
        Ok(history)
    }

    fn check_size(&self, bytes: u64) -> (checked: Result<(), GpuHistoryRecordError>)
        ensures
            match checked {
                Ok(_) => self@.record_error(bytes as int) is None,
                Err(error) => self@.record_error(bytes as int) == Some(error),
            },
    {
        if let Some((entry, _)) = &self.pending {
            return Err(GpuHistoryRecordError::OperationPending(entry.id));
        }
        if self.next_id == u64::MAX {
            return Err(GpuHistoryRecordError::HistoryIdExhausted);
        }
        if bytes > self.max_bytes {
            return Err(
                GpuHistoryRecordError::ByteLimitExceeded {
                    requested: bytes,
                    maximum: self.max_bytes,
                },
            );
        }
        Ok(())
    }

    /// How many of the oldest edits have to go for one of that size.
    fn count_evictions(&self, bytes: u64) -> (count: usize)
        requires
            self.wf(),
            self@.record_error(bytes as int) is None,
        ensures
            count == self@.evicted_count(bytes as int),
            count <= self.undo@.len(),
    {
        let ghost models = self@.undo;
        let ghost n = models.len() as int;
        let len: usize = self.undo.len();
        let max_entries: usize = self.max_entries;
        let max_bytes: u64 = self.max_bytes;
        proof {
            lemma_bytes_nonnegative(self.undo@);
            lemma_bytes_nonnegative(self.redo@);
        }
        let mut left: u64 = self.resident_bytes - sum_bytes(&self.redo);
        let mut count: usize = 0;
        assert(models.subrange(0, n) =~= models);
        while count < len && !(len - count < max_entries && left <= max_bytes - bytes)
            invariant
                models == entry_models(self.undo@),
                n == models.len(),
                len == n,
                bytes <= max_bytes,
                count <= len,
                left == entries_bytes(models.subrange(count as int, n)),
                evictions(models, bytes as int, max_entries as int, max_bytes as int) == count
                    + evictions(
                    models.subrange(count as int, n),
                    bytes as int,
                    max_entries as int,
                    max_bytes as int,
                ),
            decreases len - count,
        {
            let entry_bytes: u64 = self.undo[count].byte_len();
            proof {
                let rest = models.subrange(count as int, n);
                assert(rest[0] == self.undo@[count as int]@);
                lemma_entry_front(rest);
                assert(rest.drop_first() =~= models.subrange(count as int + 1, n));
                lemma_bytes_nonnegative(self.undo@.subrange(count as int + 1, n));
                assert(entry_models(self.undo@.subrange(count as int + 1, n))
                    =~= models.subrange(count as int + 1, n));
            }
            left = left - entry_bytes;
            count += 1;
        }
        count
    }

    fn preview_of(&self, bytes: u64) -> (preview: GpuHistoryRecordPreview)
        requires
            self.wf(),
            self@.record_error(bytes as int) is None,
        ensures
            preview@ == self@.preview(bytes as int),
    {
        let count: usize = self.count_evictions(bytes);
        let mut ids = raster_ids_of(&self.redo, self.redo.len());
        let mut older = raster_ids_of(&self.undo, count);
        proof {
            assert(self@.redo.subrange(0, self.redo@.len() as int) =~= self@.redo);
            lemma_append_ids(self@.redo, self@.undo.subrange(0, count as int));
        }
        ids.append(&mut older);
        GpuHistoryRecordPreview { id: GpuHistoryId(self.next_id), evicted_raster_ids: ids }
    }

    /// What recording the memento will do.
    pub fn check_record(&self, atlas: &SparseAtlasPlanner, memento: &GpuDocumentMemento) -> (
    preview: Result<GpuHistoryRecordPreview, GpuHistoryRecordError>)
        requires
            self.wf(),
            atlas.wf(),
        ensures
            match preview {
                Ok(preview) => memento_error(self@, atlas.geometry(), atlas.places(), memento@) is None && preview@
                    == self@.preview(memento@.plan.byte_len),
                Err(error) => memento_error(self@, atlas.geometry(), atlas.places(), memento@) == Some(error),
            },
    {
        match self.check_size(memento.byte_len()) {
            Ok(_) => {},
            Err(error) => {
                return Err(error);
            },
        }
        let regions = memento.plan().regions();
        let mut i: usize = 0;
        while i < regions.len()
            invariant
                atlas.wf(),
                regions@ == memento@.plan.regions,
                self@.record_error(memento@.plan.byte_len) is None,
                i <= regions@.len(),
                misplaced(atlas.geometry(), atlas.places(), memento@, i as int) is None,
            decreases regions@.len() - i,
        {
            let key = regions[i].key;
            let placed = match atlas.slot(key) {
                Some(slot) => slot.same(regions[i].slot),
                None => false,
            };
            if !placed {
                proof {
                    lemma_misplaced(atlas.geometry(), atlas.places(), memento@, i as int + 1, regions@.len() as int);
                }
                return Err(GpuHistoryRecordError::NotResident(key));
            }
            i += 1;
        }
        Ok(self.preview_of(memento.byte_len()))
    }

    /// What recording the edit will do.
    pub fn check_metadata_record(&self) -> (preview: Result<
        GpuHistoryRecordPreview,
        GpuHistoryRecordError,
    >)
        requires
            self.wf(),
        ensures
            match preview {
                Ok(preview) => self@.record_error(0) is None && preview@ == self@.preview(0),
                Err(error) => self@.record_error(0) == Some(error),
            },
    {
        match self.check_size(0) {
            Ok(_) => Ok(self.preview_of(0)),
            Err(error) => Err(error),
        }
    }

    /// Records an edit for which there is room.
    fn push(&mut self, payload: GpuHistoryPayload, bytes: u64) -> (record: GpuHistoryRecord)
        requires
            old(self).wf(),
            old(self)@.record_error(bytes as int) is None,
            payload matches GpuHistoryPayload::Raster(memento) ==> memento.wf() && bytes
                == memento@.plan.byte_len,
            payload is Metadata ==> bytes == 0,
        ensures
            final(self).wf(),
            final(self)@ == old(self)@.recorded(payload_model(payload), bytes as int),
            record.id == GpuHistoryId(old(self)@.next_id),
            entry_models(record.evicted@) == old(self)@.evicted(bytes as int),
            forall|i: int|
                0 <= i < record.evicted@.len() ==> (#[trigger] record.evicted@[i]).wf(),
    {
        let ghost before = self@;
        let ghost undo = self.undo@;
        let ghost redo = self.redo@;
        let ghost model = payload_model(payload);
        let count: usize = self.count_evictions(bytes);
        proof {
            lemma_evictions(
                before.undo,
                bytes as int,
                self.max_entries as int,
                self.max_bytes as int,
            );
            lemma_bytes_nonnegative(self.undo@);
            lemma_bytes_nonnegative(self.redo@);
            lemma_split_bytes(before.undo, count as int);
        }
        let dropped_redo: u64 = sum_bytes(&self.redo);
        let mut evicted: Vec<GpuHistoryEntry> = Vec::new();
        std::mem::swap(&mut evicted, &mut self.redo);
        let mut dropped: u64 = 0;
        let mut i: usize = 0;
        while i < count
            invariant
                undo.len() >= count,
                i <= count,
                before.undo == entry_models(undo),
                self.undo@ == undo.subrange(i as int, undo.len() as int),
                self.redo@.len() == 0,
                self.pending == old(self).pending,
                self.next_id == old(self).next_id,
                self.max_entries == old(self).max_entries,
                self.max_bytes == old(self).max_bytes,
                self.resident_bytes == old(self).resident_bytes,
                evicted@ == redo + undo.subrange(0, i as int),
                dropped == entries_bytes(before.undo.subrange(0, i as int)),
                entries_bytes(before.undo) <= u64::MAX,
            decreases count - i,
        {
            let ghost was = self.undo@;
            let entry = self.undo.remove(0);
            let entry_bytes: u64 = entry.byte_len();
            proof {
                assert(entry == undo[i as int]);
                assert(self.undo@ =~= undo.subrange(i as int + 1, undo.len() as int));
                let prefix = before.undo.subrange(0, i as int + 1);
                assert(prefix.drop_last() =~= before.undo.subrange(0, i as int));
                assert(prefix.last() == entry@);
                lemma_split_bytes(before.undo, i as int + 1);
                let tail = undo.subrange(i as int + 1, undo.len() as int);
                lemma_bytes_nonnegative(tail);
                assert(entry_models(tail) =~= before.undo.subrange(
                    i as int + 1,
                    before.undo.len() as int,
                ));
            }
            dropped = dropped + entry_bytes;
            evicted.push(entry);
            i += 1;
            assert(evicted@ =~= redo + undo.subrange(0, i as int));
        }
        let id = GpuHistoryId(self.next_id);
        self.next_id = self.next_id + 1;
        proof {
            let tail = undo.subrange(count as int, undo.len() as int);
            lemma_bytes_nonnegative(tail);
            assert(entry_models(tail) =~= before.undo.subrange(
                count as int,
                before.undo.len() as int,
            ));
        }
        self.resident_bytes = self.resident_bytes - dropped_redo - dropped + bytes;
        let ghost kept = self.undo@;
        let entry = GpuHistoryEntry { id, payload, archived: false };
        self.undo.push(entry);
        proof {
            let after = before.recorded(model, bytes as int);
            assert(self@.undo =~= after.undo);
            assert(self@.redo =~= after.redo);
            assert(self@.undo.drop_last() =~= before.undo.subrange(
                count as int,
                before.undo.len() as int,
            ));
            assert(self@.undo.last() == (EntryModel { id, payload: model, archived: false }));
            assert(entry_models(evicted@) =~= before.evicted(bytes as int));
            assert forall|k: int| 0 <= k < self.undo@.len() implies (
            #[trigger] self.undo@[k]).wf() by {
                if k < kept.len() {
                    assert(self.undo@[k] == undo[k + count]);
                }
            }
            assert forall|k: int| 0 <= k < evicted@.len() implies (#[trigger] evicted@[k]).wf() by {
                if k < redo.len() {
                    assert(evicted@[k] == redo[k]);
                } else {
                    assert(evicted@[k] == undo[k - redo.len()]);
                }
            }
        }
        GpuHistoryRecord { id, evicted }
    }

    /// Records an edit of pixels.
    pub fn record(&mut self, atlas: &SparseAtlasPlanner, memento: GpuDocumentMemento) -> (record:
        Result<GpuHistoryRecord, Box<GpuHistoryRecordFailure>>)
        requires
            old(self).wf(),
            atlas.wf(),
            memento.wf(),
        ensures
            final(self).wf(),
            match record {
                Ok(record) => {
                    let bytes = memento@.plan.byte_len;
                    &&& memento_error(old(self)@, atlas.geometry(), atlas.places(), memento@) is None
                    &&& final(self)@ == old(self)@.recorded(PayloadModel::Raster(memento@), bytes)
                    &&& record.id == GpuHistoryId(old(self)@.next_id)
                    &&& entry_models(record.evicted@) == old(self)@.evicted(bytes)
                    &&& forall|i: int|
                        0 <= i < record.evicted@.len() ==> (#[trigger] record.evicted@[i]).wf()
                },
                Err(failure) => memento_error(old(self)@, atlas.geometry(), atlas.places(), memento@) == Some(failure.error)
                    && failure.memento == memento && *final(self) == *old(self),
            },
    {
        match self.check_record(atlas, &memento) {
            Ok(_) => {},
            Err(error) => {
                return Err(Box::new(GpuHistoryRecordFailure { error, memento }));
            },
        }
        let bytes: u64 = memento.byte_len();
        Ok(self.push(GpuHistoryPayload::Raster(memento), bytes))
    }

    /// Records an edit of layers.
    pub fn record_metadata(&mut self, edit: DocumentMetadataEdit) -> (record: Result<
        GpuHistoryRecord,
        GpuHistoryRecordError,
    >)
        requires
            old(self).wf(),
        ensures
            final(self).wf(),
            match record {
                Ok(record) => {
                    &&& old(self)@.record_error(0) is None
                    &&& final(self)@ == old(self)@.recorded(PayloadModel::Metadata(edit@), 0)
                    &&& record.id == GpuHistoryId(old(self)@.next_id)
                    &&& entry_models(record.evicted@) == old(self)@.evicted(0)
                    &&& forall|i: int|
                        0 <= i < record.evicted@.len() ==> (#[trigger] record.evicted@[i]).wf()
                },
                Err(error) => old(self)@.record_error(0) == Some(error) && *final(self) == *old(self),
            },
    {
        match self.check_size(0) {
            Ok(_) => {},
            Err(error) => {
                return Err(error);
            },
        }
        Ok(self.push(GpuHistoryPayload::Metadata(edit), 0))
    }
}

pub(crate) open(crate) spec fn payload_model(payload: GpuHistoryPayload) -> PayloadModel {
    match payload {
        GpuHistoryPayload::Raster(memento) => PayloadModel::Raster(memento@),
        GpuHistoryPayload::Metadata(edit) => PayloadModel::Metadata(edit@),
    }
}

pub(crate) fn sum_bytes(entries: &Vec<GpuHistoryEntry>) -> (bytes: u64)
    requires
        entries_bytes(entry_models(entries@)) <= u64::MAX,
    ensures
        bytes == entries_bytes(entry_models(entries@)),
{
    let ghost models = entry_models(entries@);
    let ghost n = models.len() as int;
    let mut bytes: u64 = 0;
    let mut i: usize = 0;
    assert(models.subrange(0, 0) =~= Seq::empty());
    while i < entries.len()
        invariant
            models == entry_models(entries@),
            n == models.len(),
            entries_bytes(models) <= u64::MAX,
            i <= entries@.len(),
            bytes == entries_bytes(models.subrange(0, i as int)),
        decreases entries@.len() - i,
    {
        let entry_bytes: u64 = entries[i].byte_len();
        proof {
            assert(models[i as int] == entries@[i as int]@);
            assert(models.subrange(0, i as int + 1).drop_last() =~= models.subrange(0, i as int));
            lemma_split_bytes(models, i as int + 1);
            let tail = entries@.subrange(i as int + 1, n);
            lemma_bytes_nonnegative(tail);
            assert(entry_models(tail) =~= models.subrange(i as int + 1, n));
        }
        bytes = bytes + entry_bytes;
        i += 1;
    }
    assert(models.subrange(0, i as int) =~= models);
    bytes
}

/// Whether some entry keeps the tile.
pub open spec fn pinned(model: HistoryModel, key: LayerTileKey) -> bool {
    ||| any_pins(model.undo, key)
    ||| any_pins(model.redo, key)
    ||| (model.pending matches Some((entry, _)) && entry_pins(entry, key))
}

pub open spec fn entry_pins(entry: EntryModel, key: LayerTileKey) -> bool {
    match entry.payload {
        PayloadModel::Raster(memento) => memento_pins(memento, key),
        PayloadModel::Metadata(_) => false,
    }
}

pub open spec fn memento_pins(memento: MementoModel, key: LayerTileKey) -> bool {
    exists|i: int|
        0 <= i < memento.plan.regions.len() && (#[trigger] memento.plan.regions[i]).key == key
}

pub open spec fn any_pins(entries: Seq<EntryModel>, key: LayerTileKey) -> bool {
    exists|i: int| 0 <= i < entries.len() && entry_pins(#[trigger] entries[i], key)
}

fn holds_tile(entry: &GpuHistoryEntry, key: LayerTileKey) -> (holds: bool)
    ensures
        holds == entry_pins(entry@, key),
{
    match &entry.payload {
        GpuHistoryPayload::Raster(memento) => {
            let regions = memento.plan().regions();
            let mut i: usize = 0;
            while i < regions.len()
                invariant
                    regions@ == memento@.plan.regions,
                    entry@.payload == PayloadModel::Raster(memento@),
                    i <= regions@.len(),
                    forall|k: int| 0 <= k < i ==> (#[trigger] regions@[k]).key != key,
                decreases regions@.len() - i,
            {
                if regions[i].key.same(key) {
                    assert(memento@.plan.regions[i as int].key == key);
                    assert(memento_pins(memento@, key));
                    return true;
                }
                i += 1;
            }
            false
        },
        GpuHistoryPayload::Metadata(_) => false,
    }
}

fn any_holds_tile(entries: &Vec<GpuHistoryEntry>, key: LayerTileKey) -> (holds: bool)
    ensures
        holds == any_pins(entry_models(entries@), key),
{
    let ghost models = entry_models(entries@);
    let mut i: usize = 0;
    while i < entries.len()
        invariant
            models == entry_models(entries@),
            i <= entries@.len(),
            forall|k: int| 0 <= k < i ==> !entry_pins(#[trigger] models[k], key),
        decreases entries@.len() - i,
    {
        assert(models[i as int] == entries@[i as int]@);
        if holds_tile(&entries[i], key) {
            return true;
        }
        i += 1;
    }
    false
}

fn any_needs_layer(entries: &Vec<GpuHistoryEntry>, layer: LayerId) -> (needs: bool)
    ensures
        needs == any_references(entry_models(entries@), layer),
{
    let ghost models = entry_models(entries@);
    let mut i: usize = 0;
    while i < entries.len()
        invariant
            models == entry_models(entries@),
            i <= entries@.len(),
            forall|k: int| 0 <= k < i ==> !(#[trigger] models[k]).references(layer),
        decreases entries@.len() - i,
    {
        assert(models[i as int] == entries@[i as int]@);
        if entries[i].references(layer) {
            return true;
        }
        i += 1;
    }
    false
}

impl GpuDocumentHistory {
    pub(crate) fn stack(&self, direction: GpuHistoryDirection) -> (stack: &Vec<GpuHistoryEntry>)
        ensures
            entry_models(stack@) == (match direction {
                GpuHistoryDirection::Undo => self@.undo,
                GpuHistoryDirection::Redo => self@.redo,
            }),
    {
        match direction {
            GpuHistoryDirection::Undo => &self.undo,
            GpuHistoryDirection::Redo => &self.redo,
        }
    }

    /// The edit that would be undone or redone next.
    pub fn check_begin(&self, direction: GpuHistoryDirection) -> (id: Result<
        Option<GpuHistoryId>,
        GpuDocumentHistoryError,
    >)
        ensures
            match id {
                Ok(id) => self@.pending is None && id == (match self@.top(direction) {
                    Some(entry) => Some(entry.id),
                    None => None,
                }),
                Err(error) => self@.pending_error() == Some(error),
            },
    {
        if let Some((entry, _)) = &self.pending {
            return Err(GpuDocumentHistoryError::OperationPending(entry.id));
        }
        let stack = self.stack(direction);
        let n: usize = stack.len();
        if n == 0 {
            Ok(None)
        } else {
            assert(entry_models(stack@).last() == stack@[n - 1]@);
            Ok(Some(stack[n - 1].id))
        }
    }

    /// Of what kind the edit is that would be undone or redone next.
    pub fn check_begin_kind(&self, direction: GpuHistoryDirection) -> (kind: Result<
        Option<GpuHistoryEntryKind>,
        GpuDocumentHistoryError,
    >)
        ensures
            match kind {
                Ok(kind) => self@.pending is None && kind == (match self@.top(direction) {
                    Some(entry) => Some(entry.kind()),
                    None => None,
                }),
                Err(error) => self@.pending_error() == Some(error),
            },
    {
        if let Some((entry, _)) = &self.pending {
            return Err(GpuDocumentHistoryError::OperationPending(entry.id));
        }
        let stack = self.stack(direction);
        let n: usize = stack.len();
        if n == 0 {
            Ok(None)
        } else {
            assert(entry_models(stack@).last() == stack@[n - 1]@);
            Ok(Some(stack[n - 1].kind()))
        }
    }

    /// The edit of layers that would be undone or redone next.
    pub fn next_metadata_edit(&self, direction: GpuHistoryDirection) -> (edit: Result<
        Option<&DocumentMetadataEdit>,
        GpuDocumentHistoryError,
    >)
        ensures
            match edit {
                Ok(edit) => self@.pending is None && match (edit, self@.top(direction)) {
                    (Some(edit), Some(entry)) => entry.payload == PayloadModel::Metadata(edit@),
                    (None, None) => true,
                    _ => false,
                },
                Err(error) => match self@.pending_error() {
                    Some(expected) => error == expected,
                    None => (self@.top(direction) matches Some(entry) && entry.kind()
                        == GpuHistoryEntryKind::Raster) && error
                        == (GpuDocumentHistoryError::EntryKindMismatch {
                        expected: GpuHistoryEntryKind::Metadata,
                        actual: GpuHistoryEntryKind::Raster,
                    }),
                },
            },
    {
        if let Some((entry, _)) = &self.pending {
            return Err(GpuDocumentHistoryError::OperationPending(entry.id));
        }
        let stack = self.stack(direction);
        let n: usize = stack.len();
        if n == 0 {
            return Ok(None);
        }
        assert(entry_models(stack@).last() == stack@[n - 1]@);
        match &stack[n - 1].payload {
            GpuHistoryPayload::Metadata(edit) => Ok(Some(edit)),
            GpuHistoryPayload::Raster(_) => Err(
                GpuDocumentHistoryError::EntryKindMismatch {
                    expected: GpuHistoryEntryKind::Metadata,
                    actual: GpuHistoryEntryKind::Raster,
                },
            ),
        }
    }

    /// Starts to undo the newest edit, and says whether there was one.
    pub fn begin_undo(&mut self) -> (begun: Result<bool, GpuDocumentHistoryError>)
        requires
            old(self).wf(),
        ensures
            final(self).wf(),
            match begun {
                Ok(begun) => {
                    &&& old(self)@.pending is None
                    &&& begun == (old(self)@.undo.len() > 0)
                    &&& final(self)@ == old(self)@.begun(GpuHistoryDirection::Undo)
                },
                Err(error) => old(self)@.pending_error() == Some(error) && *final(self) == *old(self),
            },
    {
        if let Some((entry, _)) = &self.pending {
            return Err(GpuDocumentHistoryError::OperationPending(entry.id));
        }
        let ghost before = self@;
        let ghost entries = self.undo@;
        match self.undo.pop() {
            Some(entry) => {
                proof {
                    assert(self@.undo =~= before.undo.drop_last());
                    assert(before.undo.last() == entry@);
                    assert forall|k: int| 0 <= k < self.undo@.len() implies (
                    #[trigger] self.undo@[k]).wf() by {
                        assert(self.undo@[k] == entries[k]);
                    }
                    assert(entry == entries[entries.len() - 1]);
                }
                self.pending = Some((entry, GpuHistoryDirection::Undo));
                Ok(true)
            },
            None => {
                assert(self@.undo =~= before.undo);
                Ok(false)
            },
        }
    }

    /// Starts to redo what was undone last, and says whether there was anything.
    pub fn begin_redo(&mut self) -> (begun: Result<bool, GpuDocumentHistoryError>)
        requires
            old(self).wf(),
        ensures
            final(self).wf(),
            match begun {
                Ok(begun) => {
                    &&& old(self)@.pending is None
                    &&& begun == (old(self)@.redo.len() > 0)
                    &&& final(self)@ == old(self)@.begun(GpuHistoryDirection::Redo)
                },
                Err(error) => old(self)@.pending_error() == Some(error) && *final(self) == *old(self),
            },
    {
        if let Some((entry, _)) = &self.pending {
            return Err(GpuDocumentHistoryError::OperationPending(entry.id));
        }
        let ghost before = self@;
        let ghost entries = self.redo@;
        match self.redo.pop() {
            Some(entry) => {
                proof {
                    assert(self@.redo =~= before.redo.drop_last());
                    assert(before.redo.last() == entry@);
                    assert forall|k: int| 0 <= k < self.redo@.len() implies (
                    #[trigger] self.redo@[k]).wf() by {
                        assert(self.redo@[k] == entries[k]);
                    }
                    assert(entry == entries[entries.len() - 1]);
                }
                self.pending = Some((entry, GpuHistoryDirection::Redo));
                Ok(true)
            },
            None => {
                assert(self@.redo =~= before.redo);
                Ok(false)
            },
        }
    }

    fn put_pending_on(&mut self, entry: GpuHistoryEntry, direction: GpuHistoryDirection)
        requires
            old(self).pending is None,
            entry.wf(),
            ({
                let restored = HistoryModel {
                    pending: Some((entry@, direction)),
                    ..old(self)@
                };
                &&& restored.valid()
                &&& old(self).resident_bytes == restored.resident()
            }),
            forall|i: int| 0 <= i < old(self).undo@.len() ==> (#[trigger] old(self).undo@[i]).wf(),
            forall|i: int| 0 <= i < old(self).redo@.len() ==> (#[trigger] old(self).redo@[i]).wf(),
        ensures
            final(self).wf(),
            final(self)@ == (HistoryModel {
                pending: Some((entry@, direction)),
                ..old(self)@
            }).pending_onto(direction),
    {
        let ghost before = self@;
        let ghost undo = self.undo@;
        let ghost redo = self.redo@;
        let ghost model = entry@;
        match direction {
            GpuHistoryDirection::Undo => {
                self.undo.push(entry);
                proof {
                    assert(self@.undo =~= before.undo.push(model));
                    assert(self@.undo.drop_last() =~= before.undo);
                    assert forall|k: int| 0 <= k < self.undo@.len() implies (
                    #[trigger] self.undo@[k]).wf() by {
                        if k < undo.len() {
                            assert(self.undo@[k] == undo[k]);
                        }
                    }
                }
            },
            GpuHistoryDirection::Redo => {
                self.redo.push(entry);
                proof {
                    assert(self@.redo =~= before.redo.push(model));
                    assert(self@.redo.drop_last() =~= before.redo);
                    assert forall|k: int| 0 <= k < self.redo@.len() implies (
                    #[trigger] self.redo@[k]).wf() by {
                        if k < redo.len() {
                            assert(self.redo@[k] == redo[k]);
                        }
                    }
                }
            },
        }
    }

    /// Ends the pending operation: what was undone can be redone, or the other way round.
    pub fn finish_pending(&mut self) -> (id: Result<GpuHistoryId, GpuDocumentHistoryError>)
        requires
            old(self).wf(),
        ensures
            final(self).wf(),
            match id {
                Ok(id) => {
                    &&& old(self)@.pending matches Some((entry, _)) && id == entry.id
                    &&& final(self)@ == old(self)@.finished()
                },
                Err(error) => {
                    &&& old(self)@.pending is None
                    &&& error == GpuDocumentHistoryError::NoPendingOperation
                    &&& final(self)@ == old(self)@
                },
            },
    {
        let ghost before = self@;
        match self.pending.take() {
            Some((entry, direction)) => {
                let id = entry.id;
                let onto = match direction {
                    GpuHistoryDirection::Undo => GpuHistoryDirection::Redo,
                    GpuHistoryDirection::Redo => GpuHistoryDirection::Undo,
                };
                assert((HistoryModel { pending: Some((entry@, onto)), ..self@ }).resident()
                    == before.resident());
                self.put_pending_on(entry, onto);
                Ok(id)
            },
            None => Err(GpuDocumentHistoryError::NoPendingOperation),
        }
    }

    /// Gives the pending operation up: the edit goes back to where it came from.
    pub fn cancel_pending(&mut self) -> (id: Result<GpuHistoryId, GpuDocumentHistoryError>)
        requires
            old(self).wf(),
        ensures
            final(self).wf(),
            match id {
                Ok(id) => {
                    &&& old(self)@.pending matches Some((entry, _)) && id == entry.id
                    &&& final(self)@ == old(self)@.cancelled()
                },
                Err(error) => {
                    &&& old(self)@.pending is None
                    &&& error == GpuDocumentHistoryError::NoPendingOperation
                    &&& final(self)@ == old(self)@
                },
            },
    {
        let ghost before = self@;
        match self.pending.take() {
            Some((entry, direction)) => {
                let id = entry.id;
                assert((HistoryModel { pending: Some((entry@, direction)), ..self@ }).resident()
                    == before.resident());
                self.put_pending_on(entry, direction);
                Ok(id)
            },
            None => Err(GpuDocumentHistoryError::NoPendingOperation),
        }
    }

    pub fn pending_id(&self) -> (id: Option<GpuHistoryId>)
        ensures
            id == (match self@.pending {
                Some((entry, _)) => Some(entry.id),
                None => None,
            }),
    {
        match &self.pending {
            Some((entry, _)) => Some(entry.id),
            None => None,
        }
    }

    pub fn pending_direction(&self) -> (direction: Option<GpuHistoryDirection>)
        ensures
            direction == (match self@.pending {
                Some((_, direction)) => Some(direction),
                None => None,
            }),
    {
        match &self.pending {
            Some((_, direction)) => Some(*direction),
            None => None,
        }
    }

    /// The pixels of the pending operation.
    pub fn pending_memento(&self) -> (memento: Option<&GpuDocumentMemento>)
        requires
            self.wf(),
        ensures
            match memento {
                Some(memento) => memento.wf() && (self@.pending matches Some((entry, _))
                    && entry.payload == PayloadModel::Raster(memento@)),
                None => match self@.pending {
                    Some((entry, _)) => entry.kind() == GpuHistoryEntryKind::Metadata,
                    None => true,
                },
            },
    {
        match &self.pending {
            Some((entry, _)) => match &entry.payload {
                GpuHistoryPayload::Raster(memento) => Some(memento),
                GpuHistoryPayload::Metadata(_) => None,
            },
            None => None,
        }
    }

    /// Encodes the exchange of the pending operation's pixels with those of the target.
    pub fn encode_pending_swap(&mut self, target: &mut GpuDocumentTarget) -> (swap: Result<
        EncodedGpuUndoSwap,
        GpuDocumentTargetError,
    >)
        requires
            old(self).wf(),
            old(target).wf(),
            old(self)@.pending matches Some((entry, _)) && entry.kind()
                == GpuHistoryEntryKind::Raster,
        ensures
            final(self).wf(),
            final(target).wf(),
            ({
                let memento = ((old(self)@.pending->0).0).payload->Raster_0;
                match swap {
                    Ok(swap) => {
                        &&& swap_encoded(old(target)@, memento, final(target)@)
                        &&& final(self)@ == old(self)@.with_pending_memento(
                            MementoModel {
                                plan: memento.plan,
                                states: swapped_states(memento.states),
                            },
                        )
                        &&& swap@ == (EncodedSwapModel {
                            target_id: old(target)@.id,
                            stats: GpuUndoSwapStats {
                                copy_regions: memento.plan.regions.len() as u32,
                                blocks: memento.plan.block_count as u32,
                                bytes_copied: (memento.plan.byte_len * 3) as u64,
                            },
                            serial: old(target)@.next_swap,
                        })
                    },
                    Err(error) => {
                        &&& swap_fails(old(target)@, memento, error, final(target)@)
                        &&& final(self)@ == old(self)@
                    },
                }
            }),
    {
        let ghost before = self@;
        match self.pending.take() {
            Some((entry, direction)) => {
                let GpuHistoryEntry { id, payload, archived } = entry;
                match payload {
                    GpuHistoryPayload::Raster(mut memento) => {
                        let swap = target.encode_undo_swap(&mut memento);
                        self.pending = Some(
                            (
                                GpuHistoryEntry {
                                    id,
                                    payload: GpuHistoryPayload::Raster(memento),
                                    archived,
                                },
                                direction,
                            ),
                        );
                        swap
                    },
                    GpuHistoryPayload::Metadata(edit) => {
                        self.pending = Some(
                            (
                                GpuHistoryEntry {
                                    id,
                                    payload: GpuHistoryPayload::Metadata(edit),
                                    archived,
                                },
                                direction,
                            ),
                        );
                        Err(GpuDocumentTargetError::NoEncodedUndoSwap)
                    },
                }
            },
            None => Err(GpuDocumentTargetError::NoEncodedUndoSwap),
        }
    }

    /// Takes the encoded exchange of the pending operation's pixels back.
    pub fn discard_pending_swap(
        &mut self,
        target: &mut GpuDocumentTarget,
        encoded: EncodedGpuUndoSwap,
    ) -> (discarded: Result<(), GpuDocumentTargetError>)
        requires
            old(self).wf(),
            old(target).wf(),
            old(self)@.pending matches Some((entry, _)) && entry.kind()
                == GpuHistoryEntryKind::Raster,
        ensures
            final(self).wf(),
            final(target).wf(),
            ({
                let memento = ((old(self)@.pending->0).0).payload->Raster_0;
                let error = swap_token_error(old(target)@, encoded@.target_id, encoded@.serial);
                match discarded {
                    Ok(_) => {
                        &&& error is None
                        &&& final(target)@ == swap_undone(old(target)@)
                        &&& final(self)@ == old(self)@.with_pending_memento(
                            MementoModel {
                                plan: memento.plan,
                                states: swapped_states(memento.states),
                            },
                        )
                    },
                    Err(found) => {
                        &&& error == Some(found)
                        &&& final(target)@ == old(target)@
                        &&& final(self)@ == old(self)@
                    },
                }
            }),
    {
        match self.pending.take() {
            Some((entry, direction)) => {
                let GpuHistoryEntry { id, payload, archived } = entry;
                match payload {
                    GpuHistoryPayload::Raster(mut memento) => {
                        let discarded = target.undo_swap_discarded(encoded, &mut memento);
                        self.pending = Some(
                            (
                                GpuHistoryEntry {
                                    id,
                                    payload: GpuHistoryPayload::Raster(memento),
                                    archived,
                                },
                                direction,
                            ),
                        );
                        discarded
                    },
                    GpuHistoryPayload::Metadata(edit) => {
                        self.pending = Some(
                            (
                                GpuHistoryEntry {
                                    id,
                                    payload: GpuHistoryPayload::Metadata(edit),
                                    archived,
                                },
                                direction,
                            ),
                        );
                        Err(GpuDocumentTargetError::NoEncodedUndoSwap)
                    },
                }
            },
            None => Err(GpuDocumentTargetError::NoEncodedUndoSwap),
        }
    }

    /// Whether some edit needs the layer.
    pub fn references_layer(&self, layer: LayerId) -> (references: bool)
        ensures
            references == self@.references(layer),
    {
        let pending = match &self.pending {
            Some((entry, _)) => entry.references(layer),
            None => false,
        };
        pending || any_needs_layer(&self.undo, layer) || any_needs_layer(&self.redo, layer)
    }

    /// Whether some edit keeps the tile where it is.
    pub fn pins_tile(&self, key: LayerTileKey) -> (pins: bool)
        ensures
            pins == pinned(self@, key),
    {
        let pending = match &self.pending {
            Some((entry, _)) => holds_tile(entry, key),
            None => false,
        };
        pending || any_holds_tile(&self.undo, key) || any_holds_tile(&self.redo, key)
    }

    pub fn undo_depth(&self) -> (depth: usize)
        ensures
            depth == self@.undo.len(),
    {
        self.undo.len()
    }

    pub fn redo_depth(&self) -> (depth: usize)
        ensures
            depth == self@.redo.len(),
    {
        self.redo.len()
    }

    pub fn max_entries(&self) -> (entries: usize)
        ensures
            entries == self@.max_entries,
    {
        self.max_entries
    }

    pub fn max_bytes(&self) -> (bytes: u64)
        ensures
            bytes == self@.max_bytes,
    {
        self.max_bytes
    }

    pub fn resident_bytes(&self) -> (bytes: u64)
        requires
            self.wf(),
        ensures
            bytes == self@.resident(),
    {
        self.resident_bytes
    }
}

/// Undoing the newest edit and redoing it leaves the history as it was.
pub proof fn law_redo_follows_undo(history: HistoryModel)
    requires
        history.valid(),
        history.pending is None,
        history.undo.len() > 0,
    ensures
        history.begun(GpuHistoryDirection::Undo).finished().begun(
            GpuHistoryDirection::Redo,
        ).finished() == history,
        history.begun(GpuHistoryDirection::Undo).cancelled() == history,
{
    let entry = history.undo.last();
    assert(history.undo.drop_last().push(entry) =~= history.undo);
    assert(history.redo.push(entry).drop_last() =~= history.redo);
}

/// A history never holds more entries, nor more bytes, than its limits allow, whatever was
/// recorded, undone and redone.
pub proof fn law_history_stays_within_its_limits(history: &GpuDocumentHistory)
    requires
        history.wf(),
    ensures
        history@.undo.len() + history@.redo.len() + history@.pending_count()
            <= history@.max_entries,
        history@.resident() <= history@.max_bytes,
{
}

} // verus!
