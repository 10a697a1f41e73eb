//! A document whose pixels live on the device.

use crate::document::{DocumentRevision, LayerId};
use crate::document_metadata::{has_layer, DocumentMetadata, DocumentMetadataError, MetadataModel};
use crate::gpu_atlas::{
    AtlasError, AtlasGeometry, AtlasLayout, AtlasSlot, LayerTileKey, SparseAtlasPlanner,
};
use crate::gpu_cpu_mirror::{GpuCpuMirror, GpuCpuMirrorSnapshot, MirrorModel};
use crate::gpu_document_history::{
    GpuDocumentHistory, GpuDocumentHistoryError, GpuHistoryDirection, GpuHistoryEntryKind,
    GpuHistoryRecordError, HistoryModel, DEFAULT_GPU_HISTORY_BYTES, DEFAULT_GPU_HISTORY_ENTRIES,
};
use crate::gpu_document_mirror::{GpuMirrorPlanError, DEFAULT_RECONCILIATION_BYTES_IN_FLIGHT};
use crate::gpu_document_mirror_dispatcher::{
    budget_error, idle_dispatcher, DispatcherModel, GpuMirrorDispatchError, GpuMirrorDispatcher,
    DEFAULT_GPU_MIRROR_SNAPSHOT_BYTES,
};
use crate::gpu_document_recovery::{GpuDocumentRecoverySnapshot, RecoverySnapshotModel};
use crate::gpu_document_target::{GpuDocumentTarget, GpuDocumentTargetError, GpuDocumentTargetId};
use crate::gpu_document_undo::GPU_UNDO_PIXEL_BYTES;
use crate::gpu_history_archive::{ArchiveError, ArchiveModel, HistoryArchive};
use crate::gpu_history_recovery::{
    GpuHistoryRecoveryError, SpillsModel, DEFAULT_GPU_HISTORY_RECOVERY_BYTES,
    DEFAULT_GPU_HISTORY_RECOVERY_ENTRIES,
};
use crate::gpu_layer_recovery::GpuExactLayerRecoveryBuildError;
use crate::gpu_live_recovery::{
    GpuLiveRecovery, GpuLiveRecoveryError, GpuMirrorRecoveryPurpose, LiveModel,
};
use crate::gpu_mirror_capture::GpuMirrorReadbackError;
use crate::gpu_raster_transition::{GpuExactRasterRecoveryTransition, TransitionModel};
use crate::gpu_recovery_journal::{
    GpuRecoveryJournalError, JournalModel, DEFAULT_GPU_RECOVERY_JOURNAL_BYTES,
    DEFAULT_GPU_RECOVERY_JOURNAL_ENTRIES,
};
use crate::gpu_recovery_replay::GpuRasterRecoveryReplayError;
use crate::gpu_recovery_timeline::{TimelineModel, TimelineSnapshotModel};
use crate::gpu_round::RoundMaskError;
use crate::keyed_map::Key;
use vstd::prelude::*;

pub use crate::gpu_resident_commit::{
    GpuResidentDocumentCommit, GpuResidentDocumentPrepareFailure, GpuResidentDocumentSubmitFailure,
    PreparedGpuResidentDocumentCommit,
};
pub use crate::gpu_resident_history::{
    GpuResidentHistorySwapCommit, GpuResidentHistorySwapPrepareFailure,
    GpuResidentHistorySwapSubmitFailure, PreparedGpuResidentHistorySwap,
};
pub use crate::gpu_resident_layers::{
    GpuResidentDocumentBootstrap, GpuResidentLayerCloneCommit, GpuResidentLayerImportCommit,
};
pub use crate::gpu_resident_metadata::{
    GpuResidentLayerReclamation, GpuResidentMetadataCommit, GpuResidentMetadataEditFailure,
    GpuResidentMetadataHistorySwapCommit,
};
pub use crate::gpu_resident_mirror::{
    GpuResidentMirrorCompletion, GpuResidentMirrorReadbackSubmission,
    PreparedGpuResidentMirrorReadback,
};

verus! {

/// What the parts of a resident document may hold.
#[derive(Clone, Copy, Debug, PartialEq, Eq, Structural)]
pub struct GpuResidentDocumentLimits {
    pub history_entries: usize,
    pub history_bytes: u64,
    pub mirror_snapshot_bytes: u64,
    pub mirror_staging_bytes: u64,
    pub recovery_journal_entries: usize,
    pub recovery_journal_bytes: u64,
    pub recovery_spill_entries: usize,
    pub recovery_spill_bytes: u64,
}

pub open spec fn default_limits() -> GpuResidentDocumentLimits {
    GpuResidentDocumentLimits {
        history_entries: DEFAULT_GPU_HISTORY_ENTRIES,
        history_bytes: DEFAULT_GPU_HISTORY_BYTES,
        mirror_snapshot_bytes: DEFAULT_GPU_MIRROR_SNAPSHOT_BYTES,
        mirror_staging_bytes: DEFAULT_RECONCILIATION_BYTES_IN_FLIGHT,
        recovery_journal_entries: DEFAULT_GPU_RECOVERY_JOURNAL_ENTRIES,
        recovery_journal_bytes: DEFAULT_GPU_RECOVERY_JOURNAL_BYTES,
        recovery_spill_entries: DEFAULT_GPU_HISTORY_RECOVERY_ENTRIES,
        recovery_spill_bytes: DEFAULT_GPU_HISTORY_RECOVERY_BYTES,
    }
}

impl Default for GpuResidentDocumentLimits {
    fn default() -> (limits: Self)
        ensures
            limits == default_limits(),
    {
        GpuResidentDocumentLimits {
            history_entries: DEFAULT_GPU_HISTORY_ENTRIES,
            history_bytes: DEFAULT_GPU_HISTORY_BYTES,
            mirror_snapshot_bytes: DEFAULT_GPU_MIRROR_SNAPSHOT_BYTES,
            mirror_staging_bytes: DEFAULT_RECONCILIATION_BYTES_IN_FLIGHT,
            recovery_journal_entries: DEFAULT_GPU_RECOVERY_JOURNAL_ENTRIES,
            recovery_journal_bytes: DEFAULT_GPU_RECOVERY_JOURNAL_BYTES,
            recovery_spill_entries: DEFAULT_GPU_HISTORY_RECOVERY_ENTRIES,
            recovery_spill_bytes: DEFAULT_GPU_HISTORY_RECOVERY_BYTES,
        }
    }
}

/// Room for the records that accompany recovered pixels.
pub const RECOVERY_METADATA_ALLOWANCE: u64 = 32 * 1024 * 1024;

pub open spec fn ceiling(value: int, divisor: int) -> int {
    (value + divisor - 1) / divisor
}

/// The pixels of all tiles of one layer that the atlas can hold.
pub open spec fn canvas_pixels(width: int, height: int, layout: AtlasGeometry) -> int {
    let tiles = ceiling(width, layout.tile_size) * ceiling(height, layout.tile_size);
    let held = if tiles < layout.capacity() {
        tiles
    } else {
        layout.capacity()
    };
    held * (layout.tile_size * layout.tile_size)
}

pub open spec fn larger(a: int, b: int) -> int {
    if a < b {
        b
    } else {
        a
    }
}

fn largest(a: u64, b: u64) -> (max: u64)
    ensures
        max == larger(a as int, b as int),
{
    if a < b {
        b
    } else {
        a
    }
}

/// How many steps of `divisor` cover `value`.
fn steps(value: u32, divisor: u32) -> (count: u32)
    requires
        divisor > 0,
    ensures
        count == ceiling(value as int, divisor as int),
{
    let widened: u64 = value as u64 + divisor as u64 - 1;
    let count: u64 = widened / divisor as u64;
    proof {
        let v = value as int;
        let d = divisor as int;
        vstd::arithmetic::div_mod::lemma_fundamental_div_mod(v + d - 1, d);
        if v == 0 {
            vstd::arithmetic::div_mod::lemma_basic_div(d - 1, d);
        } else {
            assert(count <= value) by (nonlinear_arith)
                requires
                    widened == value + divisor - 1,
                    count == widened / (divisor as u64),
                    divisor > 0,
                    value > 0,
            ;
        }
    }
    count as u32
}

impl GpuResidentDocumentLimits {
    /// Room for one stroke over every resident tile of a layer. These are ceilings: what
    /// a stroke needs is taken only as it is drawn.
    pub fn for_canvas(canvas: [u32; 2], layout: AtlasLayout) -> (limits: Self)
        requires
            2 * (canvas_pixels(canvas[0] as int, canvas[1] as int, layout@)
                * GPU_UNDO_PIXEL_BYTES) + RECOVERY_METADATA_ALLOWANCE <= u64::MAX,
        ensures
            ({
                let history = larger(
                    DEFAULT_GPU_HISTORY_BYTES as int,
                    canvas_pixels(canvas[0] as int, canvas[1] as int, layout@)
                        * GPU_UNDO_PIXEL_BYTES,
                );
                limits == (GpuResidentDocumentLimits {
                    history_bytes: history as u64,
                    mirror_snapshot_bytes: larger(
                        DEFAULT_GPU_MIRROR_SNAPSHOT_BYTES as int,
                        history,
                    ) as u64,
                    recovery_journal_bytes: larger(
                        DEFAULT_GPU_RECOVERY_JOURNAL_BYTES as int,
                        history + RECOVERY_METADATA_ALLOWANCE,
                    ) as u64,
                    recovery_spill_bytes: larger(
                        DEFAULT_GPU_HISTORY_RECOVERY_BYTES as int,
                        2 * history + RECOVERY_METADATA_ALLOWANCE,
                    ) as u64,
                    ..default_limits()
                })
            }),
    {
        let defaults = GpuResidentDocumentLimits::default();
        let tile_size: u32 = layout.tile_size();
        let columns: u32 = steps(canvas[0], tile_size);
        let rows: u32 = steps(canvas[1], tile_size);
        assert(columns * rows <= u32::MAX * u32::MAX) by (nonlinear_arith)
            requires
                columns <= u32::MAX,
                rows <= u32::MAX,
        ;
        let tiles: u64 = columns as u64 * rows as u64;
        let capacity: u64 = layout.total_capacity() as u64;
        let held: u64 = if tiles < capacity {
            tiles
        } else {
            capacity
        };
        assert(0 < tile_size * tile_size <= u32::MAX * u32::MAX) by (nonlinear_arith)
            requires
                0 < tile_size <= u32::MAX,
        ;
        let area: u64 = tile_size as u64 * tile_size as u64;
        assert(held * area >= 0) by (nonlinear_arith)
            requires
                held >= 0,
                area >= 0,
        ;
        let pixels: u64 = held * area;
        let history_bytes: u64 = largest(
            defaults.history_bytes,
            pixels * GPU_UNDO_PIXEL_BYTES as u64,
        );
        GpuResidentDocumentLimits {
            history_entries: defaults.history_entries,
            history_bytes,
            mirror_snapshot_bytes: largest(defaults.mirror_snapshot_bytes, history_bytes),
            mirror_staging_bytes: defaults.mirror_staging_bytes,
            recovery_journal_entries: defaults.recovery_journal_entries,
            recovery_journal_bytes: largest(
                defaults.recovery_journal_bytes,
                history_bytes + RECOVERY_METADATA_ALLOWANCE,
            ),
            recovery_spill_entries: defaults.recovery_spill_entries,
            recovery_spill_bytes: largest(
                defaults.recovery_spill_bytes,
                2 * history_bytes + RECOVERY_METADATA_ALLOWANCE,
            ),
        }
    }
}

/// One stroke of a round brush on the document.
#[derive(Clone, Copy, Debug, PartialEq, Eq, Hash, Structural)]
pub struct GpuResidentRoundStrokeId(pub u64);

impl GpuResidentRoundStrokeId {
    pub fn get(self) -> (value: u64)
        ensures
            value == self.0,
    {
        self.0
    }
}

#[allow(inconsistent_fields)]
#[derive(Debug)]
pub enum GpuResidentDocumentError {
    Archive(ArchiveError),
    RevisionExhausted,
    ImportedLayerGeometryMismatch,
    MirrorRevisionMismatch { metadata: DocumentRevision, mirror: DocumentRevision },
    MetadataTileSizeMismatch { metadata: u32, atlas: u32 },
    TargetMismatch { expected: GpuDocumentTargetId, actual: GpuDocumentTargetId },
    TargetLayoutMismatch { expected: AtlasLayout, actual: AtlasLayout },
    HistoryPreviewChanged,
    HistorySwapChanged,
    MirrorHandoffPending(DocumentRevision),
    ActiveRoundStrokeIdExhausted,
    ActiveRoundStrokeMismatch {
        expected: Option<GpuResidentRoundStrokeId>,
        actual: Option<GpuResidentRoundStrokeId>,
    },
    ActiveRoundStrokeLayerMismatch { expected: LayerId, actual: LayerId },
    ActiveRoundStrokeAllocationChanged {
        key: LayerTileKey,
        expected: AtlasSlot,
        actual: Option<AtlasSlot>,
    },
    RoundMask(RoundMaskError),
    Atlas(AtlasError),
    History(GpuDocumentHistoryError),
    HistoryRecord(GpuHistoryRecordError),
    Target(GpuDocumentTargetError),
    MirrorPlan(GpuMirrorPlanError),
    MirrorReadback(GpuMirrorReadbackError),
    MirrorDispatch(GpuMirrorDispatchError),
    Recovery(GpuLiveRecoveryError),
    RecoveryReplay(GpuRasterRecoveryReplayError),
    LayerRecoveryBuild(GpuExactLayerRecoveryBuildError),
    Metadata(DocumentMetadataError),
}

impl From<GpuDocumentHistoryError> for GpuResidentDocumentError {
    fn from(error: GpuDocumentHistoryError) -> (converted: Self) {
        GpuResidentDocumentError::History(error)
    }
}

impl vstd::std_specs::convert::FromSpecImpl<GpuDocumentHistoryError> for GpuResidentDocumentError {
    open spec fn obeys_from_spec() -> bool {
        true
    }

    open spec fn from_spec(error: GpuDocumentHistoryError) -> Self {
        GpuResidentDocumentError::History(error)
    }
}

impl From<DocumentMetadataError> for GpuResidentDocumentError {
    fn from(error: DocumentMetadataError) -> (converted: Self) {
        GpuResidentDocumentError::Metadata(error)
    }
}

impl vstd::std_specs::convert::FromSpecImpl<DocumentMetadataError> for GpuResidentDocumentError {
    open spec fn obeys_from_spec() -> bool {
        true
    }

    open spec fn from_spec(error: DocumentMetadataError) -> Self {
        GpuResidentDocumentError::Metadata(error)
    }
}

impl From<AtlasError> for GpuResidentDocumentError {
    fn from(error: AtlasError) -> (converted: Self) {
        GpuResidentDocumentError::Atlas(error)
    }
}

impl vstd::std_specs::convert::FromSpecImpl<AtlasError> for GpuResidentDocumentError {
    open spec fn obeys_from_spec() -> bool {
        true
    }

    open spec fn from_spec(error: AtlasError) -> Self {
        GpuResidentDocumentError::Atlas(error)
    }
}

impl From<GpuHistoryRecordError> for GpuResidentDocumentError {
    fn from(error: GpuHistoryRecordError) -> (converted: Self) {
        GpuResidentDocumentError::HistoryRecord(error)
    }
}

impl vstd::std_specs::convert::FromSpecImpl<GpuHistoryRecordError> for GpuResidentDocumentError {
    open spec fn obeys_from_spec() -> bool {
        true
    }

    open spec fn from_spec(error: GpuHistoryRecordError) -> Self {
        GpuResidentDocumentError::HistoryRecord(error)
    }
}

impl From<GpuDocumentTargetError> for GpuResidentDocumentError {
    fn from(error: GpuDocumentTargetError) -> (converted: Self) {
        GpuResidentDocumentError::Target(error)
    }
}

impl vstd::std_specs::convert::FromSpecImpl<GpuDocumentTargetError> for GpuResidentDocumentError {
    open spec fn obeys_from_spec() -> bool {
        true
    }

    open spec fn from_spec(error: GpuDocumentTargetError) -> Self {
        GpuResidentDocumentError::Target(error)
    }
}

impl From<GpuMirrorPlanError> for GpuResidentDocumentError {
    fn from(error: GpuMirrorPlanError) -> (converted: Self) {
        GpuResidentDocumentError::MirrorPlan(error)
    }
}

impl vstd::std_specs::convert::FromSpecImpl<GpuMirrorPlanError> for GpuResidentDocumentError {
    open spec fn obeys_from_spec() -> bool {
        true
    }

    open spec fn from_spec(error: GpuMirrorPlanError) -> Self {
        GpuResidentDocumentError::MirrorPlan(error)
    }
}

impl From<GpuMirrorReadbackError> for GpuResidentDocumentError {
    fn from(error: GpuMirrorReadbackError) -> (converted: Self) {
        GpuResidentDocumentError::MirrorReadback(error)
    }
}

impl vstd::std_specs::convert::FromSpecImpl<GpuMirrorReadbackError> for GpuResidentDocumentError {
    open spec fn obeys_from_spec() -> bool {
        true
    }

    open spec fn from_spec(error: GpuMirrorReadbackError) -> Self {
        GpuResidentDocumentError::MirrorReadback(error)
    }
}

impl From<GpuMirrorDispatchError> for GpuResidentDocumentError {
    fn from(error: GpuMirrorDispatchError) -> (converted: Self) {
        GpuResidentDocumentError::MirrorDispatch(error)
    }
}

impl vstd::std_specs::convert::FromSpecImpl<GpuMirrorDispatchError> for GpuResidentDocumentError {
    open spec fn obeys_from_spec() -> bool {
        true
    }

    open spec fn from_spec(error: GpuMirrorDispatchError) -> Self {
        GpuResidentDocumentError::MirrorDispatch(error)
    }
}

impl From<GpuLiveRecoveryError> for GpuResidentDocumentError {
    fn from(error: GpuLiveRecoveryError) -> (converted: Self) {
        GpuResidentDocumentError::Recovery(error)
    }
}

impl vstd::std_specs::convert::FromSpecImpl<GpuLiveRecoveryError> for GpuResidentDocumentError {
    open spec fn obeys_from_spec() -> bool {
        true
    }

    open spec fn from_spec(error: GpuLiveRecoveryError) -> Self {
        GpuResidentDocumentError::Recovery(error)
    }
}

impl From<GpuRasterRecoveryReplayError> for GpuResidentDocumentError {
    fn from(error: GpuRasterRecoveryReplayError) -> (converted: Self) {
        GpuResidentDocumentError::RecoveryReplay(error)
    }
}

impl vstd::std_specs::convert::FromSpecImpl<GpuRasterRecoveryReplayError> for GpuResidentDocumentError {
    open spec fn obeys_from_spec() -> bool {
        true
    }

    open spec fn from_spec(error: GpuRasterRecoveryReplayError) -> Self {
        GpuResidentDocumentError::RecoveryReplay(error)
    }
}

impl From<GpuExactLayerRecoveryBuildError> for GpuResidentDocumentError {
    fn from(error: GpuExactLayerRecoveryBuildError) -> (converted: Self) {
        GpuResidentDocumentError::LayerRecoveryBuild(error)
    }
}

impl vstd::std_specs::convert::FromSpecImpl<GpuExactLayerRecoveryBuildError> for GpuResidentDocumentError {
    open spec fn obeys_from_spec() -> bool {
        true
    }

    open spec fn from_spec(error: GpuExactLayerRecoveryBuildError) -> Self {
        GpuResidentDocumentError::LayerRecoveryBuild(error)
    }
}

impl From<RoundMaskError> for GpuResidentDocumentError {
    fn from(error: RoundMaskError) -> (converted: Self) {
        GpuResidentDocumentError::RoundMask(error)
    }
}

impl vstd::std_specs::convert::FromSpecImpl<RoundMaskError> for GpuResidentDocumentError {
    open spec fn obeys_from_spec() -> bool {
        true
    }

    open spec fn from_spec(error: RoundMaskError) -> Self {
        GpuResidentDocumentError::RoundMask(error)
    }
}

/// A mirrored revision whose pixels recovery has not taken yet.
#[derive(Debug)]
pub(crate) struct PendingGpuResidentMirrorHandoff {
    pub(crate) revision: DocumentRevision,
    pub(crate) batch_index: u32,
    pub(crate) byte_len: u64,
    pub(crate) applied_revisions: Vec<DocumentRevision>,
    pub(crate) requested_purpose: GpuMirrorRecoveryPurpose,
    pub(crate) snapshot: GpuCpuMirrorSnapshot,
    pub(crate) transition: GpuExactRasterRecoveryTransition,
    pub(crate) last_error: Option<GpuLiveRecoveryError>,
}

pub struct HandoffModel {
    pub revision: DocumentRevision,
    pub batch_index: u32,
    pub byte_len: u64,
    pub applied: Seq<DocumentRevision>,
    pub purpose: GpuMirrorRecoveryPurpose,
    pub snapshot: MirrorModel,
    pub transition: TransitionModel,
    pub last_error: Option<GpuLiveRecoveryError>,
}

impl View for PendingGpuResidentMirrorHandoff {
    type V = HandoffModel;

    open(crate) spec fn view(&self) -> HandoffModel {
        HandoffModel {
            revision: self.revision,
            batch_index: self.batch_index,
            byte_len: self.byte_len,
            applied: self.applied_revisions@,
            purpose: self.requested_purpose,
            snapshot: self.snapshot@,
            transition: self.transition@,
            last_error: self.last_error,
        }
    }
}

/// The records, tiles, history, mirror and recovery of one document.
#[derive(Debug)]
pub struct GpuResidentDocument {
    pub(crate) metadata: DocumentMetadata,
    pub(crate) target_id: GpuDocumentTargetId,
    pub(crate) atlas: SparseAtlasPlanner,
    pub(crate) history: GpuDocumentHistory,
    pub(crate) mirror: GpuMirrorDispatcher,
    pub(crate) recovery: GpuLiveRecovery,
    pub(crate) mirror_purposes: Vec<GpuMirrorRecoveryPurpose>,
    pub(crate) pending_mirror_handoff: Option<PendingGpuResidentMirrorHandoff>,
    pub(crate) active_round_stroke: Option<GpuResidentRoundStrokeId>,
    pub(crate) next_round_stroke_id: u64,
    pub(crate) archive: HistoryArchive,
}

pub struct ResidentModel {
    pub metadata: MetadataModel,
    pub target_id: GpuDocumentTargetId,
    pub layout: AtlasLayout,
    pub places: Seq<Option<LayerTileKey>>,
    pub history: HistoryModel,
    pub mirror: DispatcherModel,
    pub recovery: LiveModel,
    pub purposes: Seq<GpuMirrorRecoveryPurpose>,
    pub handoff: Option<HandoffModel>,
    pub stroke: Option<GpuResidentRoundStrokeId>,
    pub next_stroke: u64,
    pub archive: ArchiveModel,
}

impl View for GpuResidentDocument {
    type V = ResidentModel;

    open(crate) spec fn view(&self) -> ResidentModel {
        ResidentModel {
            metadata: self.metadata@,
            target_id: self.target_id,
            layout: self.atlas.layout,
            places: self.atlas.places(),
            history: self.history@,
            mirror: self.mirror@,
            recovery: self.recovery@,
            purposes: self.mirror_purposes@,
            handoff: match self.pending_mirror_handoff {
                Some(handoff) => Some(handoff@),
                None => None,
            },
            stroke: self.active_round_stroke,
            next_stroke: self.next_round_stroke_id,
            archive: self.archive@,
        }
    }
}

impl ResidentModel {
    /// All parts speak of one canvas and one revision, and every revision that is still
    /// to be mirrored has a purpose.
    pub open(crate) spec fn valid(self) -> bool {
        &&& self.layout@.tile_size == self.metadata.geometry.tile_size
        &&& self.recovery.revision() == self.metadata.revision
        &&& self.mirror.reconciler.mirror.geometry == self.metadata.geometry
        &&& self.recovery.timeline.base.geometry == self.metadata.geometry
        &&& self.purposes.len() == self.mirror.queue.len() + (if self.handoff is Some {
            1int
        } else {
            0int
        })
        &&& self.handoff matches Some(handoff) ==> handoff.purpose == self.purposes[0]
    }

    /// The revision after this one, if there is one.
    pub open spec fn next_revision(self) -> Option<DocumentRevision> {
        if self.metadata.revision.0 < u64::MAX {
            Some(DocumentRevision((self.metadata.revision.0 + 1) as u64))
        } else {
            None
        }
    }

    /// Why another stroke than `expected` is in progress, if one is.
    pub open spec fn stroke_error(self, expected: Option<GpuResidentRoundStrokeId>) -> Option<
        GpuResidentDocumentError,
    > {
        if self.stroke != expected {
            Some(
                GpuResidentDocumentError::ActiveRoundStrokeMismatch {
                    expected,
                    actual: self.stroke,
                },
            )
        } else {
            None
        }
    }

    /// Why `actual` is not the target of the document, if it is not.
    pub open spec fn target_error(self, actual: GpuDocumentTargetId) -> Option<
        GpuResidentDocumentError,
    > {
        if actual != self.target_id {
            Some(
                GpuResidentDocumentError::TargetMismatch { expected: self.target_id, actual },
            )
        } else {
            None
        }
    }

    /// The target of the document has another layout.
    pub open spec fn layout_error(self, actual: AtlasLayout) -> Option<GpuResidentDocumentError> {
        if actual@ != self.layout@ {
            Some(
                GpuResidentDocumentError::TargetLayoutMismatch { expected: self.layout, actual },
            )
        } else {
            None
        }
    }
}

/// A document without history.
pub open spec fn fresh_document(
    metadata: MetadataModel,
    layout: AtlasLayout,
    target_id: GpuDocumentTargetId,
    mirror: MirrorModel,
    limits: GpuResidentDocumentLimits,
) -> ResidentModel {
    ResidentModel {
        metadata,
        target_id,
        layout,
        places: Seq::empty(),
        history: HistoryModel {
            undo: Seq::empty(),
            redo: Seq::empty(),
            pending: None,
            next_id: 1,
            max_entries: limits.history_entries,
            max_bytes: limits.history_bytes,
        },
        mirror: idle_dispatcher(
            mirror,
            limits.mirror_snapshot_bytes,
            limits.mirror_staging_bytes,
        ),
        recovery: LiveModel {
            timeline: TimelineModel {
                base: mirror,
                journal: JournalModel {
                    mirrored: mirror.revision,
                    latest: mirror.revision,
                    records: Seq::empty(),
                    max_bytes: limits.recovery_journal_bytes,
                    max_entries: limits.recovery_journal_entries,
                },
            },
            spills: SpillsModel {
                entries: Seq::empty(),
                max_entries: limits.recovery_spill_entries as int,
                max_bytes: limits.recovery_spill_bytes as int,
            },
        },
        purposes: Seq::empty(),
        handoff: None,
        stroke: None,
        next_stroke: 1,
        archive: ArchiveModel { enabled: false, job: None, failed: Seq::empty() },
    }
}

/// Why a document cannot be made within the limits, if it cannot.
pub open spec fn limits_error(limits: GpuResidentDocumentLimits) -> Option<
    GpuResidentDocumentError,
> {
    if limits.history_entries == 0 {
        Some(
            GpuResidentDocumentError::History(GpuDocumentHistoryError::InvalidMaximumEntries),
        )
    } else if limits.history_bytes == 0 {
        Some(GpuResidentDocumentError::History(GpuDocumentHistoryError::InvalidMaximumBytes))
    } else if let Some(error) = budget_error(
        limits.mirror_snapshot_bytes,
        limits.mirror_staging_bytes,
    ) {
        Some(GpuResidentDocumentError::MirrorDispatch(error))
    } else if limits.recovery_journal_entries == 0 {
        Some(
            GpuResidentDocumentError::Recovery(
                GpuLiveRecoveryError::Journal(GpuRecoveryJournalError::InvalidEntryLimit),
            ),
        )
    } else if limits.recovery_journal_bytes == 0 {
        Some(
            GpuResidentDocumentError::Recovery(
                GpuLiveRecoveryError::Journal(GpuRecoveryJournalError::InvalidByteLimit),
            ),
        )
    } else if limits.recovery_spill_entries == 0 {
        Some(
            GpuResidentDocumentError::Recovery(
                GpuLiveRecoveryError::Spills(GpuHistoryRecoveryError::InvalidEntryLimit),
            ),
        )
    } else if limits.recovery_spill_bytes == 0 {
        Some(
            GpuResidentDocumentError::Recovery(
                GpuLiveRecoveryError::Spills(GpuHistoryRecoveryError::InvalidByteLimit),
            ),
        )
    } else {
        None
    }
}

/// The tiles of the canvas are not those of the atlas.
pub open spec fn tile_size_error(metadata: MetadataModel, layout: AtlasLayout) -> Option<
    GpuResidentDocumentError,
> {
    if metadata.geometry.tile_size != layout@.tile_size {
        Some(
            GpuResidentDocumentError::MetadataTileSizeMismatch {
                metadata: metadata.geometry.tile_size as u32,
                atlas: layout@.tile_size as u32,
            },
        )
    } else {
        None
    }
}

impl GpuResidentDocument {
    pub open(crate) spec fn wf(self) -> bool {
        &&& self.metadata.wf()
        &&& self.atlas.wf()
        &&& self.history.wf()
        &&& self.mirror.wf()
        &&& self.recovery.wf()
        &&& self.pending_mirror_handoff matches Some(handoff) ==> handoff.snapshot.wf()
            && handoff.transition.wf()
        &&& self@.valid()
    }

    /// A document without pixels on `target`.
    pub fn new(
        metadata: DocumentMetadata,
        target: &GpuDocumentTarget,
        limits: GpuResidentDocumentLimits,
    ) -> (document: Result<GpuResidentDocument, GpuResidentDocumentError>)
        requires
            metadata.wf(),
        ensures
            match document {
                Ok(document) => {
                    &&& tile_size_error(metadata@, target@.layout) is None
                    &&& limits_error(limits) is None
                    &&& document.wf()
                    &&& document@ == fresh_document(
                        metadata@,
                        target@.layout,
                        target@.id,
                        MirrorModel {
                            revision: metadata@.revision,
                            geometry: metadata@.geometry,
                            tiles: Map::empty(),
                        },
                        limits,
                    )
                },
                Err(error) => match tile_size_error(metadata@, target@.layout) {
                    Some(expected) => error == expected,
                    None => limits_error(limits) == Some(error),
                },
            },
    {
        GpuResidentDocument::new_with_target_identity(
            metadata,
            target.layout(),
            target.id(),
            limits,
        )
    }

    /// A document without pixels on a target that is known by its identity alone.
    pub fn new_with_target_identity(
        metadata: DocumentMetadata,
        layout: AtlasLayout,
        target_id: GpuDocumentTargetId,
        limits: GpuResidentDocumentLimits,
    ) -> (document: Result<GpuResidentDocument, GpuResidentDocumentError>)
        requires
            metadata.wf(),
        ensures
            match document {
                Ok(document) => {
                    &&& tile_size_error(metadata@, layout) is None
                    &&& limits_error(limits) is None
                    &&& document.wf()
                    &&& document@ == fresh_document(
                        metadata@,
                        layout,
                        target_id,
                        MirrorModel {
                            revision: metadata@.revision,
                            geometry: metadata@.geometry,
                            tiles: Map::empty(),
                        },
                        limits,
                    )
                },
                Err(error) => match tile_size_error(metadata@, layout) {
                    Some(expected) => error == expected,
                    None => limits_error(limits) == Some(error),
                },
            },
    {
        if metadata.tile_size() != layout.tile_size() {
            return Err(
                GpuResidentDocumentError::MetadataTileSizeMismatch {
                    metadata: metadata.tile_size(),
                    atlas: layout.tile_size(),
                },
            );
        }
        let mirror = match GpuCpuMirror::new(
            metadata.width(),
            metadata.height(),
            metadata.tile_size(),
            metadata.revision(),
        ) {
            Ok(mirror) => mirror,
            Err(error) => {
                return Err(
                    GpuResidentDocumentError::MirrorDispatch(
                        GpuMirrorDispatchError::Reconcile(error),
                    ),
                );
            },
        };
        GpuResidentDocument::new_with_mirror(metadata, layout, target_id, mirror, limits)
    }

    pub(crate) fn new_with_mirror(
        metadata: DocumentMetadata,
        layout: AtlasLayout,
        target_id: GpuDocumentTargetId,
        mirror: GpuCpuMirror,
        limits: GpuResidentDocumentLimits,
    ) -> (document: Result<GpuResidentDocument, GpuResidentDocumentError>)
        requires
            metadata.wf(),
            mirror.wf(),
            mirror@.geometry == metadata@.geometry,
        ensures
            match document {
                Ok(document) => {
                    &&& tile_size_error(metadata@, layout) is None
                    &&& mirror@.revision == metadata@.revision
                    &&& limits_error(limits) is None
                    &&& document.wf()
                    &&& document@ == fresh_document(metadata@, layout, target_id, mirror@, limits)
                },
                Err(error) => match tile_size_error(metadata@, layout) {
                    Some(expected) => error == expected,
                    None => if mirror@.revision != metadata@.revision {
                        error == (GpuResidentDocumentError::MirrorRevisionMismatch {
                            metadata: metadata@.revision,
                            mirror: mirror@.revision,
                        })
                    } else {
                        limits_error(limits) == Some(error)
                    },
                },
            },
    {
        if metadata.tile_size() != layout.tile_size() {
            return Err(
                GpuResidentDocumentError::MetadataTileSizeMismatch {
                    metadata: metadata.tile_size(),
                    atlas: layout.tile_size(),
                },
            );
        }
        if mirror.revision().get() != metadata.revision().get() {
            return Err(
                GpuResidentDocumentError::MirrorRevisionMismatch {
                    metadata: metadata.revision(),
                    mirror: mirror.revision(),
                },
            );
        }
        let atlas = SparseAtlasPlanner::new(layout);
        let history = match GpuDocumentHistory::new(limits.history_entries, limits.history_bytes) {
            Ok(history) => history,
            Err(error) => {
                return Err(GpuResidentDocumentError::History(error));
            },
        };
        let mirror = match GpuMirrorDispatcher::from_mirror(
            mirror,
            limits.mirror_snapshot_bytes,
            limits.mirror_staging_bytes,
        ) {
            Ok(mirror) => mirror,
            Err(error) => {
                return Err(GpuResidentDocumentError::MirrorDispatch(error));
            },
        };
        let recovery = match GpuLiveRecovery::new(
            mirror.snapshot(),
            limits.recovery_journal_entries,
            limits.recovery_journal_bytes,
            limits.recovery_spill_entries,
            limits.recovery_spill_bytes,
        ) {
            Ok(recovery) => recovery,
            Err(error) => {
                return Err(GpuResidentDocumentError::Recovery(error));
            },
        };
        Ok(
            GpuResidentDocument {
                metadata,
                target_id,
                atlas,
                history,
                mirror,
                recovery,
                mirror_purposes: Vec::new(),
                pending_mirror_handoff: None,
                active_round_stroke: None,
                next_round_stroke_id: 1,
                archive: HistoryArchive::new(),
            },
        )
    }

    pub(crate) fn check_target(&self, target: &GpuDocumentTarget) -> (checked: Result<
        (),
        GpuResidentDocumentError,
    >)
        ensures
            match checked {
                Ok(_) => self@.target_error(target@.id) is None,
                Err(error) => self@.target_error(target@.id) == Some(error),
            },
    {
        self.check_target_identity(target.id())
    }

    /// Whether a target is the one that the document lives on.
    pub fn check_target_identity(&self, actual: GpuDocumentTargetId) -> (checked: Result<
        (),
        GpuResidentDocumentError,
    >)
        ensures
            match checked {
                Ok(_) => self@.target_error(actual) is None,
                Err(error) => self@.target_error(actual) == Some(error),
            },
    {
        if actual.get() != self.target_id.get() {
            return Err(
                GpuResidentDocumentError::TargetMismatch { expected: self.target_id, actual },
            );
        }
        Ok(())
    }

    pub(crate) fn check_layout(&self, target: &GpuDocumentTarget) -> (checked: Result<
        (),
        GpuResidentDocumentError,
    >)
        ensures
            match checked {
                Ok(_) => self@.layout_error(target@.layout) is None,
                Err(error) => self@.layout_error(target@.layout) == Some(error),
            },
    {
        if !target.layout().same(self.atlas.layout) {
            return Err(
                GpuResidentDocumentError::TargetLayoutMismatch {
                    expected: self.atlas.layout,
                    actual: target.layout(),
                },
            );
        }
        Ok(())
    }

    /// Whether the stroke in progress is `expected`.
    pub fn check_active_round_stroke(&self, expected: Option<GpuResidentRoundStrokeId>) -> (checked:
        Result<(), GpuResidentDocumentError>)
        ensures
            match checked {
                Ok(_) => self@.stroke_error(expected) is None,
                Err(error) => self@.stroke_error(expected) == Some(error),
            },
    {
        let same = match (self.active_round_stroke, expected) {
            (Some(active), Some(expected)) => active.0 == expected.0,
            (None, None) => true,
            _ => false,
        };
        if !same {
            return Err(
                GpuResidentDocumentError::ActiveRoundStrokeMismatch {
                    expected,
                    actual: self.active_round_stroke,
                },
            );
        }
        Ok(())
    }

    pub fn atlas(&self) -> (atlas: &SparseAtlasPlanner)
        requires
            self.wf(),
        ensures
            atlas.wf(),
            atlas.geometry() == self@.layout@,
            atlas.places() == self@.places,
    {
        &self.atlas
    }

    pub fn active_round_stroke(&self) -> (stroke: Option<GpuResidentRoundStrokeId>)
        ensures
            stroke == self@.stroke,
    {
        self.active_round_stroke
    }

    pub fn metadata(&self) -> (metadata: &DocumentMetadata)
        requires
            self.wf(),
        ensures
            metadata.wf(),
            metadata@ == self@.metadata,
    {
        &self.metadata
    }

    pub fn target_id(&self) -> (id: GpuDocumentTargetId)
        ensures
            id == self@.target_id,
    {
        self.target_id
    }

    pub fn history(&self) -> (history: &GpuDocumentHistory)
        requires
            self.wf(),
        ensures
            history.wf(),
            history@ == self@.history,
    {
        &self.history
    }

    pub fn mirror(&self) -> (mirror: &GpuMirrorDispatcher)
        requires
            self.wf(),
        ensures
            mirror.wf(),
            mirror@ == self@.mirror,
    {
        &self.mirror
    }

    pub fn recovery(&self) -> (recovery: &GpuLiveRecovery)
        requires
            self.wf(),
        ensures
            recovery.wf(),
            recovery@ == self@.recovery,
    {
        &self.recovery
    }

    pub fn revision(&self) -> (revision: DocumentRevision)
        ensures
            revision == self@.metadata.revision,
    {
        self.metadata.revision()
    }

    pub fn pending_mirror_purpose_count(&self) -> (count: usize)
        ensures
            count == self@.purposes.len(),
    {
        self.mirror_purposes.len()
    }

    /// What kept recovery from taking the pixels of the last mirrored revision.
    pub fn pending_mirror_handoff_error(&self) -> (error: Option<GpuLiveRecoveryError>)
        ensures
            error == (match self@.handoff {
                Some(handoff) => handoff.last_error,
                None => None,
            }),
    {
        match &self.pending_mirror_handoff {
            Some(pending) => pending.last_error,
            None => None,
        }
    }

    /// Which kind of edit is next in a direction.
    pub fn next_history_kind(&self, direction: GpuHistoryDirection) -> (kind: Result<
        Option<GpuHistoryEntryKind>,
        GpuResidentDocumentError,
    >)
        ensures
            match kind {
                Ok(kind) => self@.history.pending is None && kind == (match self@.history.top(
                    direction,
                ) {
                    Some(entry) => Some(entry.kind()),
                    None => None,
                }),
                Err(error) => match self@.history.pending_error() {
                    Some(pending) => error == GpuResidentDocumentError::History(pending),
                    None => false,
                },
            },
    {
        match self.history.check_begin_kind(direction) {
            Ok(kind) => Ok(kind),
            Err(error) => Err(GpuResidentDocumentError::History(error)),
        }
    }

    /// All that is needed to rebuild the document on the CPU.
    pub fn recovery_snapshot(&self) -> (snapshot: GpuDocumentRecoverySnapshot)
        requires
            self.wf(),
        ensures
            snapshot.wf(),
            snapshot@ == (RecoverySnapshotModel {
                metadata: self@.metadata,
                rasters: TimelineSnapshotModel {
                    base: self@.recovery.timeline.base,
                    target: self@.recovery.timeline.journal.latest,
                    records: self@.recovery.timeline.journal.records,
                },
            }),
    {
        GpuDocumentRecoverySnapshot {
            metadata: self.metadata.duplicate(),
            rasters: self.recovery.timeline.snapshot(),
        }
    }

    pub fn set_active_layer(&mut self, layer: LayerId) -> (chosen: Result<
        (),
        GpuResidentDocumentError,
    >)
        requires
            old(self).wf(),
        ensures
            final(self).wf(),
            match chosen {
                Ok(_) => {
                    &&& old(self)@.stroke is None
                    &&& has_layer(old(self)@.metadata.layers, layer)
                    &&& final(self)@ == (ResidentModel {
                        metadata: MetadataModel { active: layer, ..old(self)@.metadata },
                        ..old(self)@
                    })
                },
                Err(error) => {
                    &&& *final(self) == *old(self)
                    &&& match old(self)@.stroke_error(None) {
                        Some(expected) => error == expected,
                        None => !has_layer(
                            old(self)@.metadata.layers,
                            layer,
                        ) && error == GpuResidentDocumentError::Metadata(
                            DocumentMetadataError::LayerNotFound(layer),
                        ),
                    }
                },
            },
    {
        match self.check_active_round_stroke(None) {
            Ok(_) => {},
            Err(error) => {
                return Err(error);
            },
        }
        match self.metadata.set_active_layer(layer) {
            Ok(_) => Ok(()),
            Err(error) => Err(GpuResidentDocumentError::Metadata(error)),
        }
    }
}

/// All parts of a document agree: what can be recovered is the revision that is shown, on a canvas
/// of the same size and with tiles of the same size as the atlas has.
pub proof fn law_all_parts_keep_one_revision(document: &GpuResidentDocument)
    requires
        document.wf(),
    ensures
        document@.recovery.revision() == document@.metadata.revision,
        document@.mirror.reconciler.mirror.geometry == document@.metadata.geometry,
        document@.recovery.timeline.base.geometry == document@.metadata.geometry,
        document@.layout@.tile_size == document@.metadata.geometry.tile_size,
{
}

} // verus!
