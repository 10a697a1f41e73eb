//! The ledger of the color pages that hold the document on the device.

use crate::device::{grown_capacity, grows_to, growth_fails, BufferGrowthError, DeviceLimits};
use crate::gpu_atlas::{
    batch_by_page, page_batches, AtlasLayout, AtlasPageBatch, AtlasPageId, AtlasSlot,
    LayerTileKey, ResidentWork,
};
use crate::gpu_document_undo::{
    capture_planned, captured_states, swapped_states, GpuDocumentMemento, GpuMementoResidentState,
    GpuUndoCapturePlan, GpuUndoCopyRegion, GpuUndoPlanError, GpuUndoResourceError, MementoModel,
};
use crate::gpu_round_target::{
    active_list, pages_with, ActiveRoundMaskTile, RoundMaskTarget, RoundTargetModel,
};
use crate::keyed_map::{
    lemma_taken_back, take_back, taken_back, value_of, with_value, Key, KeyedMap,
};
use crate::raster::RectU32;
use crate::stroke::{MaterialModel, StrokeAccumulation, StrokeMaterial};
use vstd::prelude::*;

verus! {

/// The bytes that the buffer for instances starts with.
pub const INITIAL_COMMIT_BUFFER_BYTES: u64 = 4096;

/// The bytes that the buffer for undo swaps starts with.
pub const INITIAL_UNDO_SCRATCH_BYTES: u64 = 4096;

/// What the paint of a commit takes in its buffer, in bytes.
pub const COMMIT_UNIFORM_BYTES: u64 = 32;

/// What one place takes in the instance buffer, in bytes.
pub const COMMIT_INSTANCE_BYTES: u64 = 16;

/// Names one target.
#[derive(Clone, Copy, Debug, PartialEq, Eq, Hash, Structural)]
pub struct GpuDocumentTargetId(pub u64);

impl GpuDocumentTargetId {
    pub fn from_raw(value: u64) -> (id: GpuDocumentTargetId)
        ensures
            id.0 == value,
    {
        GpuDocumentTargetId(value)
    }

    pub fn get(self) -> (value: u64)
        ensures
            value == self.0,
    {
        self.0
    }
}

/// Gives each target a name of its own.
#[derive(Debug)]
pub struct GpuDocumentTargetIds {
    pub(crate) next: u64,
}

impl GpuDocumentTargetIds {
    /// The next name.
    pub open(crate) spec fn next(self) -> u64 {
        self.next
    }

    pub fn new() -> (ids: GpuDocumentTargetIds)
        ensures
            ids.next() == 1,
    {
        GpuDocumentTargetIds { next: 1 }
    }

    /// A name that was not given before.
    pub fn allocate(&mut self) -> (id: Result<GpuDocumentTargetId, GpuDocumentTargetError>)
        ensures
            match id {
                Ok(id) => {
                    &&& id.0 == old(self).next()
                    &&& final(self).next() == old(self).next() + 1
                },
                Err(error) => {
                    &&& error == GpuDocumentTargetError::TargetIdentityOverflow
                    &&& old(self).next() == u64::MAX
                    &&& *final(self) == *old(self)
                },
            },
    {
        match self.next.checked_add(1) {
            Some(next) => {
                let id = GpuDocumentTargetId(self.next);
                self.next = next;
                Ok(id)
            },
            None => Err(GpuDocumentTargetError::TargetIdentityOverflow),
        }
    }
}

#[derive(Clone, Copy, Debug, PartialEq, Eq, Structural)]
#[allow(inconsistent_fields)]
pub enum GpuDocumentTargetError {
    PageExceedsDeviceLimit { requested: u32, maximum: u32 },
    Float32BlendingUnavailable,
    TargetIdentityOverflow,
    TargetTokenMismatch { expected: GpuDocumentTargetId, actual: GpuDocumentTargetId },
    LayoutMismatch { expected: AtlasLayout, actual: AtlasLayout },
    UnsupportedAccumulation,
    MaskStrokeStillActive,
    MaskBatchAwaitingSubmission,
    CommitAwaitingSubmission,
    CommitTokenMismatch,
    MementoCommitTokenRequired,
    CommitSerialOverflow,
    NoEncodedCommit,
    UndoPlan(GpuUndoPlanError),
    UndoResource(GpuUndoResourceError),
    UndoSwapAwaitingSubmission,
    NoEncodedUndoSwap,
    UndoSwapTokenMismatch,
    UndoSwapSerialOverflow,
    UndoResidentMismatch {
        slot: AtlasSlot,
        expected: Option<LayerTileKey>,
        actual: Option<LayerTileKey>,
    },
    MissingMaskPage(AtlasPageId),
    MissingColorPage(AtlasPageId),
    PageOutOfRange { page: u32, maximum_pages: u32 },
    InstanceCountOverflow,
    InstanceBufferOverflow,
    InstanceBufferTooLarge { requested: u64, maximum: u64 },
    UndoCopySizeOverflow,
    UndoScratchTooLarge { requested: u64, maximum: u64 },
    ResidentCloneSourceMismatch {
        slot: AtlasSlot,
        expected: LayerTileKey,
        actual: Option<LayerTileKey>,
    },
}

/// A token belongs to one target.
pub fn check_token_target(expected: GpuDocumentTargetId, actual: GpuDocumentTargetId) -> (checked:
    Result<(), GpuDocumentTargetError>)
    ensures
        match checked {
            Ok(_) => actual == expected,
            Err(error) => actual != expected && error
                == (GpuDocumentTargetError::TargetTokenMismatch { expected, actual }),
        },
{
    if actual.0 != expected.0 {
        return Err(GpuDocumentTargetError::TargetTokenMismatch { expected, actual });
    }
    Ok(())
}

#[derive(Clone, Copy, Debug, PartialEq, Eq, Structural)]
pub struct ColorCommitStats {
    pub retained_pages: u32,
    pub render_passes: u32,
    pub committed_slots: u32,
    pub cleared_slots: u32,
    pub bytes_written: u64,
    pub undo_copy_regions: u32,
    pub undo_blocks: u32,
    pub undo_bytes: u64,
}

#[derive(Clone, Copy, Debug, PartialEq, Eq, Structural)]
pub struct GpuUndoSwapStats {
    pub copy_regions: u32,
    pub blocks: u32,
    pub bytes_copied: u64,
}

/// What is drawn on one page: which places are cleared, then which take color.
#[derive(Clone, Copy, Debug, PartialEq, Eq, Structural)]
pub struct CommitPageEncoding {
    pub page: AtlasPageId,
    pub clear_start: u32,
    pub clear_end: u32,
    pub commit_end: u32,
}

/// What the device has to do for one commit.
#[derive(Debug)]
pub struct CommitEncoding {
    pub stats: ColorCommitStats,
    pub pages: Vec<CommitPageEncoding>,
    pub slots: Vec<AtlasSlot>,
    pub memento: Option<GpuDocumentMemento>,
    pub serial: Option<u64>,
}

/// Whether a place holds the pixels of a tile.
pub open spec fn initialized(
    residents: Map<AtlasSlot, LayerTileKey>,
    key: LayerTileKey,
    slot: AtlasSlot,
) -> bool {
    value_of(residents, slot) == Some(key)
}

pub open spec fn tile_work(tiles: Seq<ActiveRoundMaskTile>) -> Seq<ResidentWork<RectU32>> {
    Seq::new(
        tiles.len(),
        |i: int|
            ResidentWork {
                key: tiles[i].key,
                slot: tiles[i].slot,
                payload: tiles[i].local_damage,
            },
    )
}

/// The tiles whose places do not hold their pixels yet.
pub open spec fn fresh(
    residents: Map<AtlasSlot, LayerTileKey>,
    work: Seq<ResidentWork<RectU32>>,
) -> Seq<ResidentWork<RectU32>>
    decreases work.len(),
{
    if work.len() == 0 {
        Seq::empty()
    } else {
        let earlier = fresh(residents, work.drop_last());
        if initialized(residents, work.last().key, work.last().slot) {
            earlier
        } else {
            earlier.push(work.last())
        }
    }
}

pub open spec fn slots_of(work: Seq<ResidentWork<RectU32>>) -> Seq<AtlasSlot> {
    Seq::new(work.len(), |i: int| work[i].slot)
}

/// The places of one page: those to clear, then those that take color.
pub open spec fn page_slots(
    residents: Map<AtlasSlot, LayerTileKey>,
    work: Seq<ResidentWork<RectU32>>,
) -> Seq<AtlasSlot> {
    slots_of(fresh(residents, work)) + slots_of(work)
}

pub open spec fn commit_slots(
    residents: Map<AtlasSlot, LayerTileKey>,
    pages: Seq<AtlasPageBatch<RectU32>>,
) -> Seq<AtlasSlot>
    decreases pages.len(),
{
    if pages.len() == 0 {
        Seq::empty()
    } else {
        commit_slots(residents, pages.drop_last()) + page_slots(residents, pages.last().work@)
    }
}

pub open spec fn all_fresh(
    residents: Map<AtlasSlot, LayerTileKey>,
    pages: Seq<AtlasPageBatch<RectU32>>,
) -> Seq<ResidentWork<RectU32>>
    decreases pages.len(),
{
    if pages.len() == 0 {
        Seq::empty()
    } else {
        all_fresh(residents, pages.drop_last()) + fresh(residents, pages.last().work@)
    }
}

/// The residents after fresh tiles have been drawn.
pub open spec fn with_fresh(
    residents: Map<AtlasSlot, LayerTileKey>,
    work: Seq<ResidentWork<RectU32>>,
) -> Map<AtlasSlot, LayerTileKey>
    decreases work.len(),
{
    if work.len() == 0 {
        residents
    } else {
        with_fresh(residents, work.drop_last()).insert(work.last().slot, work.last().key)
    }
}

/// What the places of fresh tiles held before.
pub open spec fn fresh_changes(
    residents: Map<AtlasSlot, LayerTileKey>,
    work: Seq<ResidentWork<RectU32>>,
) -> Seq<(AtlasSlot, Option<LayerTileKey>)> {
    Seq::new(work.len(), |i: int| (work[i].slot, value_of(residents, work[i].slot)))
}

/// What a place holds after document and memento have traded their pixels.
pub open spec fn swapped_resident(state: GpuMementoResidentState) -> Option<LayerTileKey> {
    if state.memento_initialized {
        Some(state.key)
    } else {
        None
    }
}

/// The residents after the first `n` tiles of a memento have traded their pixels.
pub open spec fn with_swapped(
    residents: Map<AtlasSlot, LayerTileKey>,
    states: Seq<GpuMementoResidentState>,
    n: int,
) -> Map<AtlasSlot, LayerTileKey>
    decreases n,
{
    if n <= 0 {
        residents
    } else {
        with_value(
            with_swapped(residents, states, n - 1),
            states[n - 1].slot,
            swapped_resident(states[n - 1]),
        )
    }
}

/// What the places of a memento held before each traded its pixels.
pub open spec fn swap_changes(
    residents: Map<AtlasSlot, LayerTileKey>,
    states: Seq<GpuMementoResidentState>,
    n: int,
) -> Seq<(AtlasSlot, Option<LayerTileKey>)>
    decreases n,
{
    if n <= 0 {
        Seq::empty()
    } else {
        swap_changes(residents, states, n - 1).push(
            (
                states[n - 1].slot,
                value_of(with_swapped(residents, states, n - 1), states[n - 1].slot),
            ),
        )
    }
}

/// A commit that was encoded and not yet submitted.
#[derive(Debug)]
pub(crate) struct PendingCommit {
    pub(crate) serial: u64,
    pub(crate) requires_memento: bool,
    pub(crate) changes: Vec<(AtlasSlot, Option<LayerTileKey>)>,
}

/// An undo swap that was encoded and not yet submitted.
#[derive(Debug)]
pub(crate) struct PendingSwap {
    pub(crate) serial: u64,
    pub(crate) changes: Vec<(AtlasSlot, Option<LayerTileKey>)>,
}

pub struct PendingCommitModel {
    pub serial: u64,
    pub requires_memento: bool,
    pub changes: Seq<(AtlasSlot, Option<LayerTileKey>)>,
}

pub struct PendingSwapModel {
    pub serial: u64,
    pub changes: Seq<(AtlasSlot, Option<LayerTileKey>)>,
}

pub struct TargetModel {
    pub id: GpuDocumentTargetId,
    pub layout: AtlasLayout,
    pub limits: DeviceLimits,
    pub pages: nat,
    pub instance_capacity: u64,
    pub residents: Map<AtlasSlot, LayerTileKey>,
    pub pending_commit: Option<PendingCommitModel>,
    pub next_commit: u64,
    pub scratch_capacity: u64,
    pub pending_swap: Option<PendingSwapModel>,
    pub next_swap: u64,
}

/// The color pages of one device, and which tile each place holds.
#[derive(Debug)]
pub struct GpuDocumentTarget {
    pub(crate) id: GpuDocumentTargetId,
    pub(crate) layout: AtlasLayout,
    pub(crate) limits: DeviceLimits,
    pub(crate) pages: usize,
    pub(crate) instance_buffer_capacity: u64,
    pub(crate) initialized_residents: KeyedMap<AtlasSlot, LayerTileKey>,
    pub(crate) pending_commit: Option<PendingCommit>,
    pub(crate) next_commit_serial: u64,
    pub(crate) undo_scratch_capacity: u64,
    pub(crate) pending_swap: Option<PendingSwap>,
    pub(crate) next_undo_swap_serial: u64,
}

impl View for GpuDocumentTarget {
    type V = TargetModel;

    open(crate) spec fn view(&self) -> TargetModel {
        TargetModel {
            id: self.id,
            layout: self.layout,
            limits: self.limits,
            pages: self.pages as nat,
            instance_capacity: self.instance_buffer_capacity,
            residents: self.initialized_residents@,
            pending_commit: match self.pending_commit {
                Some(pending) => Some(
                    PendingCommitModel {
                        serial: pending.serial,
                        requires_memento: pending.requires_memento,
                        changes: pending.changes@,
                    },
                ),
                None => None,
            },
            next_commit: self.next_commit_serial,
            scratch_capacity: self.undo_scratch_capacity,
            pending_swap: match self.pending_swap {
                Some(pending) => Some(
                    PendingSwapModel { serial: pending.serial, changes: pending.changes@ },
                ),
                None => None,
            },
            next_swap: self.next_undo_swap_serial,
        }
    }
}

/// A commit together with what it replaced.
#[derive(Debug)]
pub struct EncodedGpuDocumentCommit {
    pub(crate) target_id: GpuDocumentTargetId,
    pub(crate) stats: ColorCommitStats,
    pub(crate) serial: u64,
    pub(crate) memento: GpuDocumentMemento,
}

pub struct EncodedCommitModel {
    pub target_id: GpuDocumentTargetId,
    pub stats: ColorCommitStats,
    pub serial: u64,
    pub memento: MementoModel,
}

impl View for EncodedGpuDocumentCommit {
    type V = EncodedCommitModel;

    open(crate) spec fn view(&self) -> EncodedCommitModel {
        EncodedCommitModel {
            target_id: self.target_id,
            stats: self.stats,
            serial: self.serial,
            memento: self.memento@,
        }
    }
}

impl EncodedGpuDocumentCommit {
    pub open(crate) spec fn wf(self) -> bool {
        self.memento.wf()
    }

    pub fn stats(&self) -> (stats: ColorCommitStats)
        ensures
            stats == self@.stats,
    {
        self.stats
    }

    pub fn undo_block_count(&self) -> (count: u32)
        ensures
            count == self@.memento.plan.block_count,
    {
        self.memento.block_count()
    }

    pub fn undo_byte_len(&self) -> (len: u64)
        ensures
            len == self@.memento.plan.byte_len,
    {
        self.memento.byte_len()
    }

    pub fn memento(&self) -> (memento: &GpuDocumentMemento)
        requires
            self.wf(),
        ensures
            memento.wf(),
            memento@ == self@.memento,
    {
        &self.memento
    }
}

#[derive(Clone, Copy, Debug, PartialEq, Eq, Structural)]
pub struct EncodedGpuUndoSwap {
    pub(crate) target_id: GpuDocumentTargetId,
    pub(crate) stats: GpuUndoSwapStats,
    pub(crate) serial: u64,
}

pub struct EncodedSwapModel {
    pub target_id: GpuDocumentTargetId,
    pub stats: GpuUndoSwapStats,
    pub serial: u64,
}

impl View for EncodedGpuUndoSwap {
    type V = EncodedSwapModel;

    open(crate) spec fn view(&self) -> EncodedSwapModel {
        EncodedSwapModel { target_id: self.target_id, stats: self.stats, serial: self.serial }
    }
}

impl EncodedGpuUndoSwap {
    pub fn stats(&self) -> (stats: GpuUndoSwapStats)
        ensures
            stats == self@.stats,
    {
        self.stats
    }
}

/// What is wrong with the token of a commit, if anything.
pub open spec fn commit_token_error(
    target: TargetModel,
    id: GpuDocumentTargetId,
    serial: u64,
) -> Option<GpuDocumentTargetError> {
    if id != target.id {
        Some(GpuDocumentTargetError::TargetTokenMismatch { expected: target.id, actual: id })
    } else {
        match target.pending_commit {
            None => Some(GpuDocumentTargetError::NoEncodedCommit),
            Some(pending) => if pending.serial != serial {
                Some(GpuDocumentTargetError::CommitTokenMismatch)
            } else {
                None
            },
        }
    }
}

/// What is wrong with the token of an undo swap, if anything.
pub open spec fn swap_token_error(
    target: TargetModel,
    id: GpuDocumentTargetId,
    serial: u64,
) -> Option<GpuDocumentTargetError> {
    if id != target.id {
        Some(GpuDocumentTargetError::TargetTokenMismatch { expected: target.id, actual: id })
    } else {
        match target.pending_swap {
            None => Some(GpuDocumentTargetError::NoEncodedUndoSwap),
            Some(pending) => if pending.serial != serial {
                Some(GpuDocumentTargetError::UndoSwapTokenMismatch)
            } else {
                None
            },
        }
    }
}

/// What is wrong with a commit that comes without a token, if anything.
pub open spec fn plain_commit_error(target: TargetModel) -> Option<GpuDocumentTargetError> {
    match target.pending_commit {
        None => Some(GpuDocumentTargetError::NoEncodedCommit),
        Some(pending) => if pending.requires_memento {
            Some(GpuDocumentTargetError::MementoCommitTokenRequired)
        } else {
            None
        },
    }
}

/// The target after its commit was submitted.
pub open spec fn commit_kept(target: TargetModel) -> TargetModel {
    TargetModel { pending_commit: None, ..target }
}

/// The target after its commit was given up.
pub open spec fn commit_undone(target: TargetModel) -> TargetModel {
    TargetModel {
        residents: match target.pending_commit {
            Some(pending) => taken_back(target.residents, pending.changes),
            None => target.residents,
        },
        pending_commit: None,
        ..target
    }
}

/// Why a mask cannot be committed now, if it cannot.
pub open spec fn commit_refusal(
    target: TargetModel,
    mask: RoundTargetModel,
    material: MaterialModel,
) -> Option<GpuDocumentTargetError> {
    if target.pending_commit is Some {
        Some(GpuDocumentTargetError::CommitAwaitingSubmission)
    } else if target.pending_swap is Some {
        Some(GpuDocumentTargetError::UndoSwapAwaitingSubmission)
    } else if mask.active {
        Some(GpuDocumentTargetError::MaskStrokeStillActive)
    } else if mask.pending {
        Some(GpuDocumentTargetError::MaskBatchAwaitingSubmission)
    } else if mask.layout@ != target.layout@ {
        Some(
            GpuDocumentTargetError::LayoutMismatch {
                expected: target.layout,
                actual: mask.layout,
            },
        )
    } else if material.accumulation() is OpticalDensity {
        Some(GpuDocumentTargetError::UnsupportedAccumulation)
    } else {
        None
    }
}

/// Whether there is nothing to commit.
pub open spec fn commit_is_empty(mask: RoundTargetModel, material: MaterialModel) -> bool {
    material.accumulation() is NoEffect || mask.active_tiles.dom().len() == 0
}

pub open spec fn empty_stats(pages: nat) -> ColorCommitStats {
    ColorCommitStats {
        retained_pages: pages as u32,
        render_passes: 0,
        committed_slots: 0,
        cleared_slots: 0,
        bytes_written: 0,
        undo_copy_regions: 0,
        undo_blocks: 0,
        undo_bytes: 0,
    }
}

/// The target once it has a page for every tile.
pub open spec fn with_pages(target: TargetModel, pages: Seq<AtlasPageBatch<RectU32>>) -> TargetModel {
    TargetModel { pages: pages_with(target.pages, pages.last().page), ..target }
}

/// Which of the regions held pixels before.
pub open spec fn prior_states(
    residents: Map<AtlasSlot, LayerTileKey>,
    regions: Seq<GpuUndoCopyRegion>,
) -> Seq<bool> {
    Seq::new(regions.len(), |i: int| initialized(residents, regions[i].key, regions[i].slot))
}

/// Whether a memento holds what the tiles held before.
pub open spec fn memento_of(
    layout: AtlasLayout,
    residents: Map<AtlasSlot, LayerTileKey>,
    tiles: Seq<ActiveRoundMaskTile>,
    memento: MementoModel,
) -> bool {
    exists|plan: GpuUndoCapturePlan|
        {
            &&& #[trigger] capture_planned(layout, tiles, Ok(plan))
            &&& memento == (MementoModel {
                plan: plan@,
                states: captured_states(plan@.regions, prior_states(residents, plan@.regions)),
            })
        }
}

/// Whether no memento can hold what the tiles held before.
pub open spec fn memento_fails(
    layout: AtlasLayout,
    tiles: Seq<ActiveRoundMaskTile>,
    maximum: u64,
    error: GpuUndoResourceError,
) -> bool {
    exists|plan: GpuUndoCapturePlan|
        {
            &&& #[trigger] capture_planned(layout, tiles, Ok(plan))
            &&& match error {
                GpuUndoResourceError::EmptyCapture => plan@.regions.len() == 0,
                GpuUndoResourceError::BufferTooLarge { requested, maximum: limit } => {
                    &&& plan@.regions.len() > 0
                    &&& requested == plan@.byte_len
                    &&& limit == maximum
                    &&& requested > limit
                },
            }
        }
}

/// Whether a memento can hold what the tiles held before.
pub open spec fn memento_possible(
    layout: AtlasLayout,
    tiles: Seq<ActiveRoundMaskTile>,
    maximum: u64,
) -> bool {
    exists|plan: GpuUndoCapturePlan|
        {
            &&& #[trigger] capture_planned(layout, tiles, Ok(plan))
            &&& plan@.regions.len() > 0
            &&& plan@.byte_len <= maximum
        }
}

/// A memento that is possible does not fail.
pub proof fn law_possible_mementos_do_not_fail(
    layout: AtlasLayout,
    tiles: Seq<ActiveRoundMaskTile>,
    maximum: u64,
)
    requires
        memento_possible(layout, tiles, maximum),
    ensures
        forall|error: GpuUndoPlanError| !#[trigger] capture_planned(layout, tiles, Err(error)),
        forall|error: GpuUndoResourceError|
            !#[trigger] memento_fails(layout, tiles, maximum, error),
{
}

/// Whether the tiles lie on pages that the mask has.
pub open spec fn mask_covers(
    mask: RoundTargetModel,
    pages: Seq<AtlasPageBatch<RectU32>>,
    n: int,
) -> bool {
    forall|k: int| 0 <= k < n ==> (#[trigger] pages[k]).page.0 < mask.pages
}

/// Whether the encoding tells the device to commit the tiles.
pub open spec fn commit_encodes(
    target: TargetModel,
    tiles: Seq<ActiveRoundMaskTile>,
    pages: Seq<AtlasPageBatch<RectU32>>,
    capture_undo: bool,
    encoding: CommitEncoding,
) -> bool {
    let slots = commit_slots(target.residents, pages);
    &&& capture_undo ==> memento_possible(target.layout, tiles, target.limits.max_buffer_size)
    &&& encoding.slots@ == slots
    &&& encoding.serial == Some(target.next_commit)
    &&& encoding.pages@.len() == pages.len()
    &&& forall|k: int|
        #![trigger encoding.pages@[k]]
        0 <= k < pages.len() ==> {
            let page = encoding.pages@[k];
            &&& page.page == pages[k].page
            &&& page.clear_start == commit_slots(target.residents, pages.subrange(0, k)).len()
            &&& page.clear_end == page.clear_start + fresh(target.residents, pages[k].work@).len()
            &&& page.commit_end == commit_slots(
                target.residents,
                pages.subrange(0, k + 1),
            ).len()
        }
    &&& match encoding.memento {
        Some(memento) => {
            &&& capture_undo
            &&& memento.wf()
            &&& memento_of(target.layout, target.residents, tiles, memento@)
        },
        None => !capture_undo,
    }
    &&& encoding.stats == (ColorCommitStats {
        retained_pages: with_pages(target, pages).pages as u32,
        render_passes: pages.len() as u32,
        committed_slots: (slots.len() - all_fresh(target.residents, pages).len()) as u32,
        cleared_slots: all_fresh(target.residents, pages).len() as u32,
        bytes_written: (COMMIT_UNIFORM_BYTES + slots.len() * COMMIT_INSTANCE_BYTES) as u64,
        undo_copy_regions: match encoding.memento {
            Some(memento) => memento@.plan.regions.len() as u32,
            None => 0,
        },
        undo_blocks: match encoding.memento {
            Some(memento) => memento@.plan.block_count as u32,
            None => 0,
        },
        undo_bytes: match encoding.memento {
            Some(memento) => memento@.plan.byte_len as u64,
            None => 0,
        },
    })
}

/// Whether committing the tiles leads from one state to another.
pub open spec fn committed(
    before: TargetModel,
    mask: RoundTargetModel,
    pages: Seq<AtlasPageBatch<RectU32>>,
    capture_undo: bool,
    after: TargetModel,
) -> bool {
    let slots = commit_slots(before.residents, pages);
    let drawn = all_fresh(before.residents, pages);
    &&& pages.last().page.0 < before.layout@.max_pages
    &&& slots.len() <= u32::MAX
    &&& grows_to(
        before.instance_capacity,
        (slots.len() * COMMIT_INSTANCE_BYTES) as u64,
        before.limits.max_buffer_size,
        after.instance_capacity,
    )
    &&& before.next_commit < u64::MAX
    &&& mask_covers(mask, pages, pages.len() as int)
    &&& after == (TargetModel {
        instance_capacity: after.instance_capacity,
        residents: with_fresh(before.residents, drawn),
        pending_commit: Some(
            PendingCommitModel {
                serial: before.next_commit,
                requires_memento: capture_undo,
                changes: fresh_changes(before.residents, drawn),
            },
        ),
        next_commit: (before.next_commit + 1) as u64,
        ..with_pages(before, pages)
    })
}

/// Whether committing the tiles fails with this error. Pages and buffers that have
/// already grown stay grown.
pub open spec fn commit_fails(
    before: TargetModel,
    mask: RoundTargetModel,
    tiles: Seq<ActiveRoundMaskTile>,
    pages: Seq<AtlasPageBatch<RectU32>>,
    capture_undo: bool,
    error: GpuDocumentTargetError,
    after: TargetModel,
) -> bool {
    let slots = commit_slots(before.residents, pages);
    let bytes = (slots.len() * COMMIT_INSTANCE_BYTES) as u64;
    let maximum = before.limits.max_buffer_size;
    let opened = with_pages(before, pages);
    if pages.last().page.0 >= before.layout@.max_pages {
        &&& after == before
        &&& error == (GpuDocumentTargetError::PageOutOfRange {
            page: pages.last().page.0,
            maximum_pages: before.layout@.max_pages as u32,
        })
    } else if slots.len() > u32::MAX {
        after == opened && error == GpuDocumentTargetError::InstanceCountOverflow
    } else {
        match error {
            GpuDocumentTargetError::InstanceBufferOverflow => after == opened && growth_fails(
                before.instance_capacity,
                bytes,
                maximum,
                BufferGrowthError::Overflow,
            ),
            GpuDocumentTargetError::InstanceBufferTooLarge { requested, maximum: limit } => after
                == opened && growth_fails(
                before.instance_capacity,
                bytes,
                maximum,
                BufferGrowthError::TooLarge { requested, maximum: limit },
            ),
            _ => {
                &&& grows_to(
                    before.instance_capacity,
                    bytes,
                    maximum,
                    after.instance_capacity,
                )
                &&& after == (TargetModel {
                    instance_capacity: after.instance_capacity,
                    ..opened
                })
                &&& match error {
                    GpuDocumentTargetError::UndoPlan(error) => capture_undo && capture_planned(
                        before.layout,
                        tiles,
                        Err(error),
                    ),
                    GpuDocumentTargetError::UndoResource(error) => capture_undo && memento_fails(
                        before.layout,
                        tiles,
                        maximum,
                        error,
                    ),
                    GpuDocumentTargetError::CommitSerialOverflow => {
                        &&& capture_undo ==> memento_possible(before.layout, tiles, maximum)
                        &&& before.next_commit == u64::MAX
                    },
                    GpuDocumentTargetError::MissingMaskPage(page) => {
                        &&& capture_undo ==> memento_possible(before.layout, tiles, maximum)
                        &&& before.next_commit < u64::MAX
                        &&& exists|k: int|
                            #![trigger pages[k]]
                            0 <= k < pages.len() && page == pages[k].page && page.0 >= mask.pages
                                && mask_covers(mask, pages, k)
                    },
                    _ => false,
                }
            },
        }
    }
}

proof fn lemma_commit_slots_len(
    residents: Map<AtlasSlot, LayerTileKey>,
    pages: Seq<AtlasPageBatch<RectU32>>,
    k: int,
)
    requires
        0 <= k <= pages.len(),
    ensures
        commit_slots(residents, pages.subrange(0, k)).len() <= commit_slots(
            residents,
            pages,
        ).len(),
        all_fresh(residents, pages).len() <= commit_slots(residents, pages).len(),
    decreases pages.len() - k,
{
    lemma_fresh_counted(residents, pages);
    if k < pages.len() {
        lemma_commit_slots_len(residents, pages, k + 1);
        assert(pages.subrange(0, k + 1).drop_last() =~= pages.subrange(0, k));
    } else {
        assert(pages.subrange(0, k) =~= pages);
    }
}

proof fn lemma_fresh_counted(
    residents: Map<AtlasSlot, LayerTileKey>,
    pages: Seq<AtlasPageBatch<RectU32>>,
)
    ensures
        all_fresh(residents, pages).len() <= commit_slots(residents, pages).len(),
    decreases pages.len(),
{
    if pages.len() > 0 {
        lemma_fresh_counted(residents, pages.drop_last());
    }
}

/// The residents of the tiles, as work at their places.
pub(crate) fn list_tiles(tiles: &Vec<ActiveRoundMaskTile>) -> (work: Vec<ResidentWork<RectU32>>)
    ensures
        work@ == tile_work(tiles@),
{
    let mut work: Vec<ResidentWork<RectU32>> = Vec::new();
    let mut i: usize = 0;
    while i < tiles.len()
        invariant
            i <= tiles@.len(),
            work@.len() == i,
            forall|k: int| 0 <= k < i ==> #[trigger] work@[k] == tile_work(tiles@)[k],
        decreases tiles@.len() - i,
    {
        work.push(
            ResidentWork {
                key: tiles[i].key,
                slot: tiles[i].slot,
                payload: tiles[i].local_damage,
            },
        );
        i += 1;
    }
    assert(work@ =~= tile_work(tiles@));
    work
}

impl GpuDocumentTarget {
    pub open(crate) spec fn wf(self) -> bool {
        &&& self.initialized_residents.wf()
        &&& self.pages <= self.layout@.max_pages
    }

    /// A target without pages. `id` names it.
    pub fn new(limits: DeviceLimits, layout: AtlasLayout, ids: &mut GpuDocumentTargetIds) -> (
    target: Result<GpuDocumentTarget, GpuDocumentTargetError>)
        ensures
            match target {
                Ok(target) => {
                    &&& layout@.page_size <= limits.max_texture_dimension_2d
                    &&& limits.float32_blendable
                    &&& final(ids).next() == old(ids).next() + 1
                    &&& target.wf()
                    &&& target@ == (TargetModel {
                        id: GpuDocumentTargetId(old(ids).next()),
                        layout,
                        limits,
                        pages: 0,
                        instance_capacity: INITIAL_COMMIT_BUFFER_BYTES,
                        residents: Map::empty(),
                        pending_commit: None,
                        next_commit: 1,
                        scratch_capacity: INITIAL_UNDO_SCRATCH_BYTES,
                        pending_swap: None,
                        next_swap: 1,
                    })
                },
                Err(error) => {
                    &&& *final(ids) == *old(ids)
                    &&& if layout@.page_size > limits.max_texture_dimension_2d {
                        error == (GpuDocumentTargetError::PageExceedsDeviceLimit {
                            requested: layout@.page_size as u32,
                            maximum: limits.max_texture_dimension_2d,
                        })
                    } else if !limits.float32_blendable {
                        error == GpuDocumentTargetError::Float32BlendingUnavailable
                    } else {
                        &&& error == GpuDocumentTargetError::TargetIdentityOverflow
                        &&& old(ids).next() == u64::MAX
                    }
                },
            },
    {
        if layout.page_size() > limits.max_texture_dimension_2d {
            return Err(
                GpuDocumentTargetError::PageExceedsDeviceLimit {
                    requested: layout.page_size(),
                    maximum: limits.max_texture_dimension_2d,
                },
            );
        }
        if !limits.float32_blendable {
            return Err(GpuDocumentTargetError::Float32BlendingUnavailable);
        }
        let id = match ids.allocate() {
            Ok(id) => id,
            Err(error) => {
                return Err(error);
            },
        };
        let max_pages: u32 = layout.max_pages();
        Ok(
            GpuDocumentTarget {
                id,
                layout,
                limits,
                pages: 0,
                instance_buffer_capacity: INITIAL_COMMIT_BUFFER_BYTES,
                initialized_residents: KeyedMap::new(),
                pending_commit: None,
                next_commit_serial: 1,
                undo_scratch_capacity: INITIAL_UNDO_SCRATCH_BYTES,
                pending_swap: None,
                next_undo_swap_serial: 1,
            },
        )
    }

    pub fn layout(&self) -> (layout: AtlasLayout)
        ensures
            layout == self@.layout,
    {
        self.layout
    }

    pub fn id(&self) -> (id: GpuDocumentTargetId)
        ensures
            id == self@.id,
    {
        self.id
    }

    pub fn retained_page_count(&self) -> (count: usize)
        ensures
            count == self@.pages,
    {
        self.pages
    }

    /// The tile whose pixels a place holds.
    pub fn initialized_resident(&self, slot: AtlasSlot) -> (key: Option<LayerTileKey>)
        requires
            self.wf(),
        ensures
            key == value_of(self@.residents, slot),
    {
        match self.initialized_residents.get(slot) {
            Some(key) => Some(*key),
            None => None,
        }
    }

    pub fn commit_is_pending(&self) -> (pending: bool)
        ensures
            pending == (self@.pending_commit is Some),
    {
        self.pending_commit.is_some()
    }

    fn validate_commit_token(&self, id: GpuDocumentTargetId, serial: u64) -> (checked: Result<
        (),
        GpuDocumentTargetError,
    >)
        ensures
            match checked {
                Ok(_) => commit_token_error(self@, id, serial) is None,
                Err(error) => commit_token_error(self@, id, serial) == Some(error),
            },
    {
        match check_token_target(self.id, id) {
            Ok(_) => {},
            Err(error) => {
                return Err(error);
            },
        }
        match &self.pending_commit {
            None => Err(GpuDocumentTargetError::NoEncodedCommit),
            Some(pending) => {
                if pending.serial != serial {
                    return Err(GpuDocumentTargetError::CommitTokenMismatch);
                }
                Ok(())
            },
        }
    }

    pub fn check_encoded_commit(&self, encoded: &EncodedGpuDocumentCommit) -> (checked: Result<
        (),
        GpuDocumentTargetError,
    >)
        ensures
            match checked {
                Ok(_) => commit_token_error(self@, encoded@.target_id, encoded@.serial) is None,
                Err(error) => commit_token_error(self@, encoded@.target_id, encoded@.serial)
                    == Some(error),
            },
    {
        self.validate_commit_token(encoded.target_id, encoded.serial)
    }

    fn finish_commit_submission(&mut self)
        requires
            old(self).wf(),
        ensures
            final(self).wf(),
            final(self)@ == commit_kept(old(self)@),
    {
        self.pending_commit = None;
    }

    fn finish_commit_discard(&mut self)
        requires
            old(self).wf(),
        ensures
            final(self).wf(),
            final(self)@ == commit_undone(old(self)@),
    {
        match self.pending_commit.take() {
            Some(pending) => {
                take_back(&mut self.initialized_residents, pending.changes);
            },
            None => {},
        }
    }

    fn check_plain_commit(&self) -> (checked: Result<(), GpuDocumentTargetError>)
        ensures
            match checked {
                Ok(_) => plain_commit_error(self@) is None,
                Err(error) => plain_commit_error(self@) == Some(error),
            },
    {
        match &self.pending_commit {
            None => Err(GpuDocumentTargetError::NoEncodedCommit),
            Some(pending) => if pending.requires_memento {
                Err(GpuDocumentTargetError::MementoCommitTokenRequired)
            } else {
                Ok(())
            },
        }
    }

    /// Keeps a commit that was made without a memento.
    pub fn commit_submitted(&mut self) -> (submitted: Result<(), GpuDocumentTargetError>)
        requires
            old(self).wf(),
        ensures
            final(self).wf(),
            match submitted {
                Ok(_) => plain_commit_error(old(self)@) is None && final(self)@ == commit_kept(
                    old(self)@,
                ),
                Err(error) => plain_commit_error(old(self)@) == Some(error) && *final(self)
                    == *old(self),
            },
    {
        match self.check_plain_commit() {
            Ok(_) => {
                self.finish_commit_submission();
                Ok(())
            },
            Err(error) => Err(error),
        }
    }

    /// Takes back a commit that was made without a memento.
    pub fn commit_discarded(&mut self) -> (discarded: Result<(), GpuDocumentTargetError>)
        requires
            old(self).wf(),
        ensures
            final(self).wf(),
            match discarded {
                Ok(_) => plain_commit_error(old(self)@) is None && final(self)@ == commit_undone(
                    old(self)@,
                ),
                Err(error) => plain_commit_error(old(self)@) == Some(error) && *final(self)
                    == *old(self),
            },
    {
        match self.check_plain_commit() {
            Ok(_) => {
                self.finish_commit_discard();
                Ok(())
            },
            Err(error) => Err(error),
        }
    }

    /// Keeps a commit, and hands out what it replaced.
    pub fn commit_submitted_with_memento(&mut self, encoded: EncodedGpuDocumentCommit) -> (memento:
        Result<GpuDocumentMemento, GpuDocumentTargetError>)
        requires
            old(self).wf(),
            encoded.wf(),
        ensures
            final(self).wf(),
            ({
                let error = commit_token_error(
                    old(self)@,
                    encoded@.target_id,
                    encoded@.serial,
                );
                match memento {
                    Ok(memento) => {
                        &&& error is None
                        &&& final(self)@ == commit_kept(old(self)@)
                        &&& memento.wf()
                        &&& memento@ == encoded@.memento
                    },
                    Err(found) => error == Some(found) && *final(self) == *old(self),
                }
            }),
    {
        match self.validate_commit_token(encoded.target_id, encoded.serial) {
            Ok(_) => {
                self.finish_commit_submission();
                Ok(encoded.memento)
            },
            Err(error) => Err(error),
        }
    }

    /// Takes a commit back.
    pub fn commit_discarded_with_memento(&mut self, encoded: EncodedGpuDocumentCommit) -> (
    discarded: Result<(), GpuDocumentTargetError>)
        requires
            old(self).wf(),
        ensures
            final(self).wf(),
            ({
                let error = commit_token_error(
                    old(self)@,
                    encoded@.target_id,
                    encoded@.serial,
                );
                match discarded {
                    Ok(_) => error is None && final(self)@ == commit_undone(old(self)@),
                    Err(found) => error == Some(found) && *final(self) == *old(self),
                }
            }),
    {
        match self.validate_commit_token(encoded.target_id, encoded.serial) {
            Ok(_) => {
                self.finish_commit_discard();
                Ok(())
            },
            Err(error) => Err(error),
        }
    }

    /// Lists the places to clear and to draw on, page by page.
    #[verifier::loop_isolation(false)]
    fn list_commit(&self, pages: &Vec<AtlasPageBatch<RectU32>>) -> (listed: (
        Vec<CommitPageEncoding>,
        Vec<AtlasSlot>,
        Vec<ResidentWork<RectU32>>,
        bool,
    ))
        requires
            self.wf(),
        ensures
            ({
                let (encodings, slots, drawn, overflow) = listed;
                let residents = self@.residents;
                &&& overflow == (commit_slots(residents, pages@).len() > u32::MAX)
                &&& !overflow ==> {
                    &&& slots@ == commit_slots(residents, pages@)
                    &&& drawn@ == all_fresh(residents, pages@)
                    &&& encodings@.len() == pages@.len()
                    &&& forall|k: int|
                        #![trigger encodings@[k]]
                        0 <= k < pages@.len() ==> {
                            let page = encodings@[k];
                            &&& page.page == pages@[k].page
                            &&& page.clear_start == commit_slots(
                                residents,
                                pages@.subrange(0, k),
                            ).len()
                            &&& page.clear_end == page.clear_start + fresh(
                                residents,
                                pages@[k].work@,
                            ).len()
                            &&& page.commit_end == commit_slots(
                                residents,
                                pages@.subrange(0, k + 1),
                            ).len()
                        }
                }
            }),
    {
        let ghost residents = self@.residents;
        let ghost all = pages@;
        let mut encodings: Vec<CommitPageEncoding> = Vec::new();
        let mut slots: Vec<AtlasSlot> = Vec::new();
        let mut drawn: Vec<ResidentWork<RectU32>> = Vec::new();
        let mut p: usize = 0;
        assert(all.subrange(0, 0) =~= Seq::<AtlasPageBatch<RectU32>>::empty());
        while p < pages.len()
            invariant
                p <= all.len(),
                encodings@.len() == p,
                slots@.len() <= u32::MAX,
                slots@ == commit_slots(residents, all.subrange(0, p as int)),
                drawn@ == all_fresh(residents, all.subrange(0, p as int)),
                forall|k: int|
                    #![trigger encodings@[k]]
                    0 <= k < p ==> {
                        let page = encodings@[k];
                        &&& page.page == all[k].page
                        &&& page.clear_start == commit_slots(
                            residents,
                            all.subrange(0, k),
                        ).len()
                        &&& page.clear_end == page.clear_start + fresh(
                            residents,
                            all[k].work@,
                        ).len()
                        &&& page.commit_end == commit_slots(
                            residents,
                            all.subrange(0, k + 1),
                        ).len()
                    },
            decreases all.len() - p,
        {
            let page = &pages[p];
            let ghost work = page.work@;
            let ghost base = slots@;
            let ghost drawn_before = drawn@;
            let clear_start: u32 = slots.len() as u32;
            proof {
                let prefix = all.subrange(0, p as int + 1);
                assert(prefix.drop_last() =~= all.subrange(0, p as int));
                assert(prefix.last() == *page);
                assert(work.subrange(0, 0) =~= Seq::<ResidentWork<RectU32>>::empty());
                assert(base + slots_of(fresh(residents, work.subrange(0, 0))) =~= base);
                assert(drawn_before + fresh(residents, work.subrange(0, 0)) =~= drawn_before);
            }
            let mut w: usize = 0;
            while w < page.work.len()
                invariant
                    w <= work.len(),
                    slots@ == base + slots_of(fresh(residents, work.subrange(0, w as int))),
                    drawn@ == drawn_before + fresh(residents, work.subrange(0, w as int)),
                decreases work.len() - w,
            {
                let item = page.work[w];
                proof {
                    let next = work.subrange(0, w as int + 1);
                    assert(next.drop_last() =~= work.subrange(0, w as int));
                    assert(next.last() == item);
                }
                let held = match self.initialized_residents.get(item.slot) {
                    Some(key) => key.same(item.key),
                    None => false,
                };
                assert(held == initialized(residents, item.key, item.slot));
                if !held {
                    slots.push(item.slot);
                    drawn.push(item);
                }
                w += 1;
                proof {
                    assert(slots@ =~= base + slots_of(
                        fresh(residents, work.subrange(0, w as int)),
                    ));
                    assert(drawn@ =~= drawn_before + fresh(
                        residents,
                        work.subrange(0, w as int),
                    ));
                }
            }
            assert(work.subrange(0, w as int) =~= work);
            let cleared: usize = slots.len();
            let ghost after_clear = slots@;
            let mut c: usize = 0;
            while c < page.work.len()
                invariant
                    c <= work.len(),
                    slots@ == after_clear + slots_of(work.subrange(0, c as int)),
                decreases work.len() - c,
            {
                slots.push(page.work[c].slot);
                c += 1;
                assert(slots@ =~= after_clear + slots_of(work.subrange(0, c as int)));
            }
            proof {
                assert(work.subrange(0, c as int) =~= work);
                assert(slots@ =~= base + page_slots(residents, work));
                lemma_commit_slots_len(residents, all, p as int + 1);
            }
            if slots.len() > u32::MAX as usize {
                return (encodings, slots, drawn, true);
            }
            encodings.push(
                CommitPageEncoding {
                    page: page.page,
                    clear_start,
                    clear_end: cleared as u32,
                    commit_end: slots.len() as u32,
                },
            );
            p += 1;
        }
        assert(all.subrange(0, p as int) =~= all);
        (encodings, slots, drawn, false)
    }

    /// Plans what has to be kept for an undo, and which of it holds pixels now.
    pub(crate) fn capture_memento(&self, tiles: &Vec<ActiveRoundMaskTile>) -> (memento: Result<
        GpuDocumentMemento,
        GpuDocumentTargetError,
    >)
        requires
            self.wf(),
        ensures
            match memento {
                Ok(memento) => {
                    &&& memento.wf()
                    &&& memento_of(self@.layout, self@.residents, tiles@, memento@)
                    &&& memento_possible(self@.layout, tiles@, self@.limits.max_buffer_size)
                },
                Err(GpuDocumentTargetError::UndoPlan(error)) => capture_planned(
                    self@.layout,
                    tiles@,
                    Err(error),
                ),
                Err(GpuDocumentTargetError::UndoResource(error)) => memento_fails(
                    self@.layout,
                    tiles@,
                    self@.limits.max_buffer_size,
                    error,
                ),
                Err(_) => false,
            },
    {
        let plan = match GpuUndoCapturePlan::from_active_tiles(self.layout, tiles) {
            Ok(plan) => plan,
            Err(error) => {
                return Err(GpuDocumentTargetError::UndoPlan(error));
            },
        };
        let ghost found = plan;
        let ghost regions = plan@.regions;
        let mut prior: Vec<bool> = Vec::new();
        let mut i: usize = 0;
        while i < plan.regions().len()
            invariant
                self.wf(),
                plan == found,
                regions == plan@.regions,
                i <= regions.len(),
                prior@.len() == i,
                forall|k: int|
                    0 <= k < i ==> #[trigger] prior@[k] == prior_states(
                        self@.residents,
                        regions,
                    )[k],
            decreases regions.len() - i,
        {
            let region = plan.regions()[i];
            let held = match self.initialized_residents.get(region.slot) {
                Some(key) => key.same(region.key),
                None => false,
            };
            prior.push(held);
            i += 1;
        }
        assert(prior@ =~= prior_states(self@.residents, regions));
        assert(capture_planned(self@.layout, tiles@, Ok(found)));
        match GpuDocumentMemento::new(plan, &prior, self.limits.max_buffer_size) {
            Ok(memento) => Ok(memento),
            Err(error) => Err(GpuDocumentTargetError::UndoResource(error)),
        }
    }

    /// Notes that fresh tiles are drawn, and what their places held before.
    pub(crate) fn draw_fresh(&mut self, drawn: &Vec<ResidentWork<RectU32>>) -> (changes: Vec<
        (AtlasSlot, Option<LayerTileKey>),
    >)
        requires
            old(self).wf(),
        ensures
            final(self).wf(),
            changes@ == fresh_changes(old(self)@.residents, drawn@),
            final(self)@ == (TargetModel {
                residents: with_fresh(old(self)@.residents, drawn@),
                ..old(self)@
            }),
    {
        let ghost model = self@;
        let mut changes: Vec<(AtlasSlot, Option<LayerTileKey>)> = Vec::new();
        let mut i: usize = 0;
        while i < drawn.len()
            invariant
                self.wf(),
                self@ == model,
                i <= drawn@.len(),
                changes@.len() == i,
                forall|k: int|
                    0 <= k < i ==> #[trigger] changes@[k] == fresh_changes(
                        model.residents,
                        drawn@,
                    )[k],
            decreases drawn@.len() - i,
        {
            let slot = drawn[i].slot;
            let previous = self.initialized_resident(slot);
            changes.push((slot, previous));
            i += 1;
        }
        assert(changes@ =~= fresh_changes(model.residents, drawn@));
        let mut j: usize = 0;
        assert(drawn@.subrange(0, 0) =~= Seq::<ResidentWork<RectU32>>::empty());
        while j < drawn.len()
            invariant
                self.wf(),
                j <= drawn@.len(),
                self@ == (TargetModel {
                    residents: with_fresh(model.residents, drawn@.subrange(0, j as int)),
                    ..model
                }),
            decreases drawn@.len() - j,
        {
            proof {
                let prefix = drawn@.subrange(0, j as int + 1);
                assert(prefix.drop_last() =~= drawn@.subrange(0, j as int));
                assert(prefix.last() == drawn@[j as int]);
            }
            self.initialized_residents.insert(drawn[j].slot, drawn[j].key);
            j += 1;
        }
        assert(drawn@.subrange(0, j as int) =~= drawn@);
        changes
    }

    fn missing_mask_page(
        mask: &RoundMaskTarget,
        pages: &Vec<AtlasPageBatch<RectU32>>,
    ) -> (missing: Option<AtlasPageId>)
        ensures
            match missing {
                Some(page) => exists|k: int|
                    #![trigger pages@[k]]
                    0 <= k < pages@.len() && page == pages@[k].page && page.0 >= mask@.pages
                        && mask_covers(mask@, pages@, k),
                None => mask_covers(mask@, pages@, pages@.len() as int),
            },
    {
        let mut k: usize = 0;
        while k < pages.len()
            invariant
                k <= pages@.len(),
                mask_covers(mask@, pages@, k as int),
            decreases pages@.len() - k,
        {
            let page = pages[k].page;
            if page.0 as usize >= mask.retained_page_count() {
                assert(page == pages@[k as int].page);
                return Some(page);
            }
            k += 1;
        }
        None
    }

    fn encode_full_flow_commit_internal(
        &mut self,
        mask: &RoundMaskTarget,
        material: StrokeMaterial,
        capture_undo: bool,
    ) -> (encoding: Result<CommitEncoding, GpuDocumentTargetError>)
        requires
            old(self).wf(),
            mask.wf(),
        ensures
            final(self).wf(),
            commit_reported(
                old(self)@,
                mask@,
                material@,
                capture_undo,
                encoding,
                final(self)@,
            ),
    {
        if self.pending_commit.is_some() {
            return Err(GpuDocumentTargetError::CommitAwaitingSubmission);
        }
        if self.pending_swap.is_some() {
            return Err(GpuDocumentTargetError::UndoSwapAwaitingSubmission);
        }
        if mask.stroke_is_active() {
            return Err(GpuDocumentTargetError::MaskStrokeStillActive);
        }
        if mask.encoded_batch_is_pending() {
            return Err(GpuDocumentTargetError::MaskBatchAwaitingSubmission);
        }
        if !mask.layout().same(self.layout) {
            return Err(
                GpuDocumentTargetError::LayoutMismatch {
                    expected: self.layout,
                    actual: mask.layout(),
                },
            );
        }
        let ghost before = self@;
        let max_pages: u32 = self.layout.max_pages();
        let nothing = ColorCommitStats {
            retained_pages: self.pages as u32,
            render_passes: 0,
            committed_slots: 0,
            cleared_slots: 0,
            bytes_written: 0,
            undo_copy_regions: 0,
            undo_blocks: 0,
            undo_bytes: 0,
        };
        match material.accumulation() {
            StrokeAccumulation::NoEffect => {
                return Ok(
                    CommitEncoding {
                        stats: nothing,
                        pages: Vec::new(),
                        slots: Vec::new(),
                        memento: None,
                        serial: None,
                    },
                );
            },
            StrokeAccumulation::CoverageUnion => {},
            StrokeAccumulation::OpticalDensity { flow: _ } => {
                return Err(GpuDocumentTargetError::UnsupportedAccumulation);
            },
        }
        let tiles = mask.active_tiles();
        if tiles.len() == 0 {
            return Ok(
                CommitEncoding {
                    stats: nothing,
                    pages: Vec::new(),
                    slots: Vec::new(),
                    memento: None,
                    serial: None,
                },
            );
        }
        let work = list_tiles(&tiles);
        let pages = batch_by_page(&work);
        proof {
            assert(active_list(mask@.active_tiles, tiles@));
            assert(page_batches(tile_work(tiles@), pages@));
            let first = work@[0];
            assert(pages@.len() > 0);
        }
        let highest: u32 = pages[pages.len() - 1].page.0;
        if highest >= max_pages {
            let error = GpuDocumentTargetError::PageOutOfRange {
                page: highest,
                maximum_pages: max_pages,
            };
            assert(commit_fails(before, mask@, tiles@, pages@, capture_undo, error, self@));
            return Err(error);
        }
        if self.pages <= highest as usize {
            self.pages = highest as usize + 1;
        }
        let ghost opened = self@;
        assert(opened == with_pages(before, pages@));
        let (encodings, slots, drawn, overflow) = self.list_commit(&pages);
        if overflow {
            let error = GpuDocumentTargetError::InstanceCountOverflow;
            assert(commit_fails(before, mask@, tiles@, pages@, capture_undo, error, self@));
            return Err(error);
        }
        let instance_bytes: u64 = slots.len() as u64 * COMMIT_INSTANCE_BYTES;
        match grown_capacity(
            self.instance_buffer_capacity,
            instance_bytes,
            self.limits.max_buffer_size,
        ) {
            Ok(capacity) => {
                self.instance_buffer_capacity = capacity;
            },
            Err(fault) => {
                let error = match fault {
                    BufferGrowthError::Overflow => GpuDocumentTargetError::InstanceBufferOverflow,
                    BufferGrowthError::TooLarge { requested, maximum } => {
                        GpuDocumentTargetError::InstanceBufferTooLarge { requested, maximum }
                    },
                };
                assert(commit_fails(before, mask@, tiles@, pages@, capture_undo, error, self@));
                return Err(error);
            },
        }
        let memento = if capture_undo {
            match self.capture_memento(&tiles) {
                Ok(memento) => Some(memento),
                Err(error) => {
                    assert(commit_fails(
                        before,
                        mask@,
                        tiles@,
                        pages@,
                        capture_undo,
                        error,
                        self@,
                    ));
                    return Err(error);
                },
            }
        } else {
            None
        };
        let serial: u64 = self.next_commit_serial;
        let next_serial: u64 = match serial.checked_add(1) {
            Some(next_serial) => next_serial,
            None => {
                let error = GpuDocumentTargetError::CommitSerialOverflow;
                assert(commit_fails(before, mask@, tiles@, pages@, capture_undo, error, self@));
                return Err(error);
            },
        };
        match Self::missing_mask_page(mask, &pages) {
            Some(page) => {
                let error = GpuDocumentTargetError::MissingMaskPage(page);
                assert(commit_fails(before, mask@, tiles@, pages@, capture_undo, error, self@));
                return Err(error);
            },
            None => {},
        }
        proof {
            lemma_commit_slots_len(before.residents, pages@, 0);
        }
        let changes = self.draw_fresh(&drawn);
        self.pending_commit = Some(
            PendingCommit { serial, requires_memento: capture_undo, changes },
        );
        self.next_commit_serial = next_serial;
        let (undo_copy_regions, undo_blocks, undo_bytes): (u32, u32, u64) = match &memento {
            Some(memento) => (
                #[verifier::truncate]
                (memento.plan().regions().len() as u32),
                memento.block_count(),
                memento.byte_len(),
            ),
            None => (0, 0, 0),
        };
        let stats = ColorCommitStats {
            retained_pages: self.pages as u32,
            render_passes: #[verifier::truncate]
            (encodings.len() as u32),
            committed_slots: (slots.len() - drawn.len()) as u32,
            cleared_slots: drawn.len() as u32,
            bytes_written: COMMIT_UNIFORM_BYTES + instance_bytes,
            undo_copy_regions,
            undo_blocks,
            undo_bytes,
        };
        let encoding = CommitEncoding {
            stats,
            pages: encodings,
            slots,
            memento,
            serial: Some(serial),
        };
        proof {
            assert(commit_encodes(before, tiles@, pages@, capture_undo, encoding));
            assert(committed(before, mask@, pages@, capture_undo, self@));
            let result: Result<CommitEncoding, GpuDocumentTargetError> = Ok(encoding);
            assert(commit_reported(before, mask@, material@, capture_undo, result, self@));
        }
        Ok(encoding)
    }

    /// Draws a finished stroke into the document. Nothing of what it covers is kept.
    pub fn encode_full_flow_commit(
        &mut self,
        mask: &RoundMaskTarget,
        material: StrokeMaterial,
    ) -> (encoding: Result<CommitEncoding, GpuDocumentTargetError>)
        requires
            old(self).wf(),
            mask.wf(),
        ensures
            final(self).wf(),
            commit_reported(
                old(self)@,
                mask@,
                material@,
                false,
                encoding,
                final(self)@,
            ),
    {
        self.encode_full_flow_commit_internal(mask, material, false)
    }

    /// Draws a finished stroke into the document, and keeps what it covers. Says what the
    /// device has to do, and hands out the commit, unless there is nothing to commit.
    pub fn encode_full_flow_commit_with_undo(
        &mut self,
        mask: &RoundMaskTarget,
        material: StrokeMaterial,
    ) -> (commit: Result<
        Option<(EncodedGpuDocumentCommit, Vec<CommitPageEncoding>, Vec<AtlasSlot>)>,
        GpuDocumentTargetError,
    >)
        requires
            old(self).wf(),
            mask.wf(),
        ensures
            final(self).wf(),
            undo_commit_reported(old(self)@, mask@, material@, commit, final(self)@),
    {
        match self.encode_full_flow_commit_internal(mask, material, true) {
            Ok(encoding) => {
                let ghost held = encoding;
                let CommitEncoding { stats, pages, slots, memento, serial } = encoding;
                match (memento, serial) {
                    (Some(memento), Some(serial)) => {
                        assert(commit_reported(
                            old(self)@,
                            mask@,
                            material@,
                            true,
                            Ok(held),
                            self@,
                        ));
                        Ok(
                            Some(
                                (
                                    EncodedGpuDocumentCommit {
                                        target_id: self.id,
                                        stats,
                                        serial,
                                        memento,
                                    },
                                    pages,
                                    slots,
                                ),
                            ),
                        )
                    },
                    _ => Ok(None),
                }
            },
            Err(error) => Err(error),
        }
    }

    pub fn undo_swap_is_pending(&self) -> (pending: bool)
        ensures
            pending == (self@.pending_swap is Some),
    {
        self.pending_swap.is_some()
    }

    fn validate_undo_swap_token(&self, id: GpuDocumentTargetId, serial: u64) -> (checked: Result<
        (),
        GpuDocumentTargetError,
    >)
        ensures
            match checked {
                Ok(_) => swap_token_error(self@, id, serial) is None,
                Err(error) => swap_token_error(self@, id, serial) == Some(error),
            },
    {
        match check_token_target(self.id, id) {
            Ok(_) => {},
            Err(error) => {
                return Err(error);
            },
        }
        match &self.pending_swap {
            None => Err(GpuDocumentTargetError::NoEncodedUndoSwap),
            Some(pending) => {
                if pending.serial != serial {
                    return Err(GpuDocumentTargetError::UndoSwapTokenMismatch);
                }
                Ok(())
            },
        }
    }

    pub fn check_encoded_undo_swap(&self, encoded: &EncodedGpuUndoSwap) -> (checked: Result<
        (),
        GpuDocumentTargetError,
    >)
        ensures
            match checked {
                Ok(_) => swap_token_error(self@, encoded@.target_id, encoded@.serial) is None,
                Err(error) => swap_token_error(self@, encoded@.target_id, encoded@.serial) == Some(
                    error,
                ),
            },
    {
        self.validate_undo_swap_token(encoded.target_id, encoded.serial)
    }

    /// Checks that the document holds what the memento expects.
    fn check_residents(&self, memento: &GpuDocumentMemento) -> (checked: Result<
        (),
        GpuDocumentTargetError,
    >)
        requires
            self.wf(),
            memento.wf(),
        ensures
            match checked {
                Ok(_) => resident_faults(self@, memento@.states, memento@.states.len() as int)
                    is None,
                Err(error) => resident_faults(
                    self@,
                    memento@.states,
                    memento@.states.len() as int,
                ) == Some(error),
            },
    {
        let states = memento.resident_states();
        let ghost all = states@;
        let mut i: usize = 0;
        while i < states.len()
            invariant
                self.wf(),
                all == states@,
                all == memento@.states,
                i <= all.len(),
                resident_faults(self@, all, i as int) is None,
            decreases all.len() - i,
        {
            let state = states[i];
            let actual = self.initialized_resident(state.slot);
            let matching = match actual {
                Some(key) => state.document_initialized && key.same(state.key),
                None => !state.document_initialized,
            };
            if !matching {
                let expected = if state.document_initialized {
                    Some(state.key)
                } else {
                    None
                };
                proof {
                    lemma_fault_stays(self@, all, i as int + 1, all.len() as int);
                }
                return Err(
                    GpuDocumentTargetError::UndoResidentMismatch {
                        slot: state.slot,
                        expected,
                        actual,
                    },
                );
            }
            if state.slot.page.0 as usize >= self.pages {
                proof {
                    lemma_fault_stays(self@, all, i as int + 1, all.len() as int);
                }
                return Err(GpuDocumentTargetError::MissingColorPage(state.slot.page));
            }
            i += 1;
        }
        Ok(())
    }

    /// Trades the pixels of the document for those of a memento.
    pub fn encode_undo_swap(&mut self, memento: &mut GpuDocumentMemento) -> (swap: Result<
        EncodedGpuUndoSwap,
        GpuDocumentTargetError,
    >)
        requires
            old(self).wf(),
            old(memento).wf(),
        ensures
            final(self).wf(),
            final(memento).wf(),
            match swap {
                Ok(swap) => {
                    &&& swap_encoded(old(self)@, old(memento)@, final(self)@)
                    &&& final(memento)@ == (MementoModel {
                        plan: old(memento)@.plan,
                        states: swapped_states(old(memento)@.states),
                    })
                    &&& swap@ == (EncodedSwapModel {
                        target_id: old(self)@.id,
                        stats: GpuUndoSwapStats {
                            copy_regions: old(memento)@.plan.regions.len() as u32,
                            blocks: old(memento)@.plan.block_count as u32,
                            bytes_copied: (old(memento)@.plan.byte_len * 3) as u64,
                        },
                        serial: old(self)@.next_swap,
                    })
                },
                Err(error) => {
                    &&& swap_fails(old(self)@, old(memento)@, error, final(self)@)
                    &&& final(memento)@ == old(memento)@
                },
            },
    {
        let ghost before = self@;
        let ghost held = memento@;
        if self.pending_commit.is_some() {
            return Err(GpuDocumentTargetError::CommitAwaitingSubmission);
        }
        if self.pending_swap.is_some() {
            return Err(GpuDocumentTargetError::UndoSwapAwaitingSubmission);
        }
        if !memento.plan().layout().same(self.layout) {
            return Err(
                GpuDocumentTargetError::LayoutMismatch {
                    expected: self.layout,
                    actual: memento.plan().layout(),
                },
            );
        }
        match self.check_residents(memento) {
            Ok(_) => {},
            Err(error) => {
                return Err(error);
            },
        }
        let byte_len: u64 = memento.byte_len();
        match grown_capacity(self.undo_scratch_capacity, byte_len, self.limits.max_buffer_size) {
            Ok(capacity) => {
                self.undo_scratch_capacity = capacity;
            },
            Err(fault) => {
                return Err(
                    match fault {
                        BufferGrowthError::Overflow => GpuDocumentTargetError::UndoCopySizeOverflow,
                        BufferGrowthError::TooLarge { requested, maximum } => {
                            GpuDocumentTargetError::UndoScratchTooLarge { requested, maximum }
                        },
                    },
                );
            },
        }
        if memento.plan().regions().len() > u32::MAX as usize {
            return Err(GpuDocumentTargetError::InstanceCountOverflow);
        }
        let copy_regions: u32 = memento.plan().regions().len() as u32;
        let bytes_copied: u64 = match byte_len.checked_mul(3) {
            Some(bytes_copied) => bytes_copied,
            None => {
                return Err(GpuDocumentTargetError::UndoCopySizeOverflow);
            },
        };
        let serial: u64 = self.next_undo_swap_serial;
        let next_serial: u64 = match serial.checked_add(1) {
            Some(next_serial) => next_serial,
            None => {
                return Err(GpuDocumentTargetError::UndoSwapSerialOverflow);
            },
        };
        let ghost grown = self@;
        let mut changes: Vec<(AtlasSlot, Option<LayerTileKey>)> = Vec::new();
        let mut i: usize = 0;
        let total: usize = memento.resident_states().len();
        while i < total
            invariant
                self.wf(),
                memento.wf(),
                memento@ == held,
                total == held.states.len(),
                i <= total,
                changes@ == swap_changes(before.residents, held.states, i as int),
                self@ == (TargetModel {
                    residents: with_swapped(before.residents, held.states, i as int),
                    ..grown
                }),
            decreases total - i,
        {
            let state = memento.resident_states()[i];
            let previous = self.initialized_resident(state.slot);
            if state.memento_initialized {
                self.initialized_residents.insert(state.slot, state.key);
            } else {
                self.initialized_residents.remove(state.slot);
            }
            changes.push((state.slot, previous));
            i += 1;
        }
        memento.swap_resident_states();
        self.pending_swap = Some(PendingSwap { serial, changes });
        self.next_undo_swap_serial = next_serial;
        let stats = GpuUndoSwapStats { copy_regions, blocks: memento.block_count(), bytes_copied };
        Ok(EncodedGpuUndoSwap { target_id: self.id, stats, serial })
    }

    /// Keeps an undo swap.
    pub fn undo_swap_submitted(&mut self, encoded: EncodedGpuUndoSwap) -> (submitted: Result<
        (),
        GpuDocumentTargetError,
    >)
        requires
            old(self).wf(),
        ensures
            final(self).wf(),
            ({
                let error = swap_token_error(old(self)@, encoded@.target_id, encoded@.serial);
                match submitted {
                    Ok(_) => error is None && final(self)@ == (TargetModel {
                        pending_swap: None,
                        ..old(self)@
                    }),
                    Err(found) => error == Some(found) && *final(self) == *old(self),
                }
            }),
    {
        match self.validate_undo_swap_token(encoded.target_id, encoded.serial) {
            Ok(_) => {
                self.pending_swap = None;
                Ok(())
            },
            Err(error) => Err(error),
        }
    }

    /// Takes an undo swap back, in the document and in the memento.
    pub fn undo_swap_discarded(
        &mut self,
        encoded: EncodedGpuUndoSwap,
        memento: &mut GpuDocumentMemento,
    ) -> (discarded: Result<(), GpuDocumentTargetError>)
        requires
            old(self).wf(),
            old(memento).wf(),
        ensures
            final(self).wf(),
            final(memento).wf(),
            ({
                let error = swap_token_error(old(self)@, encoded@.target_id, encoded@.serial);
                match discarded {
                    Ok(_) => {
                        &&& error is None
                        &&& final(self)@ == swap_undone(old(self)@)
                        &&& final(memento)@ == (MementoModel {
                            plan: old(memento)@.plan,
                            states: swapped_states(old(memento)@.states),
                        })
                    },
                    Err(found) => {
                        &&& error == Some(found)
                        &&& *final(self) == *old(self)
                        &&& *final(memento) == *old(memento)
                    },
                }
            }),
    {
        match self.validate_undo_swap_token(encoded.target_id, encoded.serial) {
            Ok(_) => {
                match self.pending_swap.take() {
                    Some(pending) => {
                        take_back(&mut self.initialized_residents, pending.changes);
                    },
                    None => {},
                }
                memento.swap_resident_states();
                Ok(())
            },
            Err(error) => Err(error),
        }
    }
}

/// What comes of encoding a commit that keeps what it replaces.
pub open(crate) spec fn undo_commit_reported(
    before: TargetModel,
    mask: RoundTargetModel,
    material: MaterialModel,
    commit: Result<
        Option<(EncodedGpuDocumentCommit, Vec<CommitPageEncoding>, Vec<AtlasSlot>)>,
        GpuDocumentTargetError,
    >,
    after: TargetModel,
) -> bool {
    match commit {
        Ok(Some((commit, pages, slots))) => {
            &&& commit.wf()
            &&& commit@.target_id == before.id
            &&& exists|encoding: CommitEncoding|
                {
                    &&& #[trigger] commit_reported(
                        before,
                        mask,
                        material,
                        true,
                        Ok(encoding),
                        after,
                    )
                    &&& encoding.serial == Some(commit@.serial)
                    &&& encoding.stats == commit@.stats
                    &&& encoding.pages == pages
                    &&& encoding.slots == slots
                    &&& encoding.memento matches Some(memento) && memento@
                        == commit@.memento
                }
        },
        Ok(None) => {
            &&& commit_refusal(before, mask, material) is None
            &&& commit_is_empty(mask, material)
            &&& after == before
        },
        Err(error) => commit_reported(
            before,
            mask,
            material,
            true,
            Err(error),
            after,
        ),
    }
}

/// Whether an encoding, or an error, is what a commit comes to.
pub open spec fn commit_reported(
    before: TargetModel,
    mask: RoundTargetModel,
    material: MaterialModel,
    capture_undo: bool,
    encoding: Result<CommitEncoding, GpuDocumentTargetError>,
    after: TargetModel,
) -> bool {
    match commit_refusal(before, mask, material) {
        Some(error) => encoding == Err::<CommitEncoding, GpuDocumentTargetError>(error) && after
            == before,
        None => if commit_is_empty(mask, material) {
            &&& after == before
            &&& encoding matches Ok(encoding)
            &&& encoding.stats == empty_stats(before.pages)
            &&& encoding.pages@.len() == 0
            &&& encoding.slots@.len() == 0
            &&& encoding.memento is None
            &&& encoding.serial is None
        } else {
            exists|tiles: Seq<ActiveRoundMaskTile>, pages: Seq<AtlasPageBatch<RectU32>>|
                {
                    &&& #[trigger] active_list(mask.active_tiles, tiles)
                    &&& #[trigger] page_batches(tile_work(tiles), pages)
                    &&& match encoding {
                        Ok(encoding) => {
                            &&& commit_encodes(before, tiles, pages, capture_undo, encoding)
                            &&& committed(before, mask, pages, capture_undo, after)
                        },
                        Err(error) => commit_fails(
                            before,
                            mask,
                            tiles,
                            pages,
                            capture_undo,
                            error,
                            after,
                        ),
                    }
                }
        },
    }
}

/// What is wrong with the residents of the first `n` tiles of a memento, if anything.
pub open spec fn resident_faults(
    target: TargetModel,
    states: Seq<GpuMementoResidentState>,
    n: int,
) -> Option<GpuDocumentTargetError>
    decreases n,
{
    if n <= 0 {
        None
    } else {
        match resident_faults(target, states, n - 1) {
            Some(error) => Some(error),
            None => {
                let state = states[n - 1];
                let actual = value_of(target.residents, state.slot);
                let expected = if state.document_initialized {
                    Some(state.key)
                } else {
                    None
                };
                if actual != expected {
                    Some(
                        GpuDocumentTargetError::UndoResidentMismatch {
                            slot: state.slot,
                            expected,
                            actual,
                        },
                    )
                } else if state.slot.page.0 >= target.pages {
                    Some(GpuDocumentTargetError::MissingColorPage(state.slot.page))
                } else {
                    None
                }
            },
        }
    }
}

proof fn lemma_fault_stays(
    target: TargetModel,
    states: Seq<GpuMementoResidentState>,
    at: int,
    n: int,
)
    requires
        0 <= at <= n,
        resident_faults(target, states, at) is Some,
    ensures
        resident_faults(target, states, n) == resident_faults(target, states, at),
    decreases n - at,
{
    if at < n {
        lemma_fault_stays(target, states, at, n - 1);
    }
}

/// Why a memento cannot be traded in now, if it cannot.
pub open spec fn swap_refusal(target: TargetModel, memento: MementoModel) -> Option<
    GpuDocumentTargetError,
> {
    if target.pending_commit is Some {
        Some(GpuDocumentTargetError::CommitAwaitingSubmission)
    } else if target.pending_swap is Some {
        Some(GpuDocumentTargetError::UndoSwapAwaitingSubmission)
    } else if memento.plan.layout@ != target.layout@ {
        Some(
            GpuDocumentTargetError::LayoutMismatch {
                expected: target.layout,
                actual: memento.plan.layout,
            },
        )
    } else {
        resident_faults(target, memento.states, memento.states.len() as int)
    }
}

/// Whether trading in a memento leads from one state to another.
pub open spec fn swap_encoded(
    before: TargetModel,
    memento: MementoModel,
    after: TargetModel,
) -> bool {
    let n = memento.states.len() as int;
    &&& swap_refusal(before, memento) is None
    &&& grows_to(
        before.scratch_capacity,
        memento.plan.byte_len as u64,
        before.limits.max_buffer_size,
        after.scratch_capacity,
    )
    &&& memento.plan.regions.len() <= u32::MAX
    &&& memento.plan.byte_len * 3 <= u64::MAX
    &&& before.next_swap < u64::MAX
    &&& after == (TargetModel {
        residents: with_swapped(before.residents, memento.states, n),
        scratch_capacity: after.scratch_capacity,
        pending_swap: Some(
            PendingSwapModel {
                serial: before.next_swap,
                changes: swap_changes(before.residents, memento.states, n),
            },
        ),
        next_swap: (before.next_swap + 1) as u64,
        ..before
    })
}

/// Whether trading in a memento fails with this error. A buffer that has already grown
/// stays grown.
pub open spec fn swap_fails(
    before: TargetModel,
    memento: MementoModel,
    error: GpuDocumentTargetError,
    after: TargetModel,
) -> bool {
    let bytes = memento.plan.byte_len as u64;
    let maximum = before.limits.max_buffer_size;
    match swap_refusal(before, memento) {
        Some(refusal) => error == refusal && after == before,
        None => {
            ||| {
                &&& after == before
                &&& match error {
                    GpuDocumentTargetError::UndoCopySizeOverflow => growth_fails(
                        before.scratch_capacity,
                        bytes,
                        maximum,
                        BufferGrowthError::Overflow,
                    ),
                    GpuDocumentTargetError::UndoScratchTooLarge { requested, maximum: limit } => {
                        growth_fails(
                            before.scratch_capacity,
                            bytes,
                            maximum,
                            BufferGrowthError::TooLarge { requested, maximum: limit },
                        )
                    },
                    _ => false,
                }
            }
            ||| {
                &&& grows_to(before.scratch_capacity, bytes, maximum, after.scratch_capacity)
                &&& after == (TargetModel { scratch_capacity: after.scratch_capacity, ..before })
                &&& if memento.plan.regions.len() > u32::MAX {
                    error == GpuDocumentTargetError::InstanceCountOverflow
                } else if memento.plan.byte_len * 3 > u64::MAX {
                    error == GpuDocumentTargetError::UndoCopySizeOverflow
                } else {
                    error == GpuDocumentTargetError::UndoSwapSerialOverflow && before.next_swap
                        == u64::MAX
                }
            }
        },
    }
}

/// The target after its undo swap was given up.
pub open spec fn swap_undone(target: TargetModel) -> TargetModel {
    TargetModel {
        residents: match target.pending_swap {
            Some(pending) => taken_back(target.residents, pending.changes),
            None => target.residents,
        },
        pending_swap: None,
        ..target
    }
}

proof fn lemma_with_fresh_elsewhere(
    residents: Map<AtlasSlot, LayerTileKey>,
    work: Seq<ResidentWork<RectU32>>,
    slot: AtlasSlot,
)
    requires
        forall|i: int| 0 <= i < work.len() ==> (#[trigger] work[i]).slot != slot,
    ensures
        value_of(with_fresh(residents, work), slot) == value_of(residents, slot),
    decreases work.len(),
{
    if work.len() > 0 {
        let rest = work.drop_last();
        assert forall|i: int| 0 <= i < rest.len() implies (#[trigger] rest[i]).slot != slot by {
            assert(rest[i] == work[i]);
        }
        lemma_with_fresh_elsewhere(residents, rest, slot);
        assert(work[work.len() - 1].slot != slot);
    }
}

/// Giving up a commit brings every place back to the tile that it held before.
pub proof fn law_discarding_a_commit_restores_the_residents(
    before: TargetModel,
    mask: RoundTargetModel,
    pages: Seq<AtlasPageBatch<RectU32>>,
    capture_undo: bool,
    after: TargetModel,
)
    requires
        committed(before, mask, pages, capture_undo, after),
    ensures
        commit_undone(after).residents == before.residents,
        commit_undone(after).pending_commit is None,
{
    let drawn = all_fresh(before.residents, pages);
    let changes = fresh_changes(before.residents, drawn);
    let map = with_fresh(before.residents, drawn);
    assert forall|slot: AtlasSlot|
        #![trigger map.contains_key(slot)]
        (forall|i: int| 0 <= i < changes.len() ==> (#[trigger] changes[i]).0
            != slot) implies value_of(map, slot) == value_of(before.residents, slot) by {
        assert forall|i: int| 0 <= i < drawn.len() implies (#[trigger] drawn[i]).slot != slot by {
            assert(changes[i].0 == drawn[i].slot);
        }
        lemma_with_fresh_elsewhere(before.residents, drawn, slot);
    }
    lemma_taken_back(before.residents, map, changes);
}

/// Giving up an undo swap brings every place back to the tile that it held before.
pub proof fn law_discarding_a_swap_restores_the_residents(
    residents: Map<AtlasSlot, LayerTileKey>,
    states: Seq<GpuMementoResidentState>,
    n: int,
)
    requires
        0 <= n <= states.len(),
    ensures
        taken_back(
            with_swapped(residents, states, n),
            swap_changes(residents, states, n),
        ) == residents,
    decreases n,
{
    if n > 0 {
        law_discarding_a_swap_restores_the_residents(residents, states, n - 1);
        let before = with_swapped(residents, states, n - 1);
        let after = with_swapped(residents, states, n);
        let list = swap_changes(residents, states, n);
        let slot = states[n - 1].slot;
        assert(list.drop_last() =~= swap_changes(residents, states, n - 1));
        assert(with_value(after, slot, value_of(before, slot)) =~= before);
    }
}

} // verus!
