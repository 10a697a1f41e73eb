//! What each error says of itself.

use crate::brush::BrushError;
use crate::document::{DocumentError, DocumentRevision, LayerId};
use crate::document_metadata::DocumentMetadataError;
use crate::gpu_atlas::{AtlasError, AtlasLayout, AtlasPageId, AtlasSlot, LayerTileKey};
use crate::gpu_cpu_mirror::GpuMirrorReconcileError;
use crate::gpu_blade_stroke::ContinuousBladeError;
use crate::gpu_document_history::{
    GpuDocumentHistoryError, GpuHistoryEntryKind, GpuHistoryId, GpuHistoryRecordError,
};
use crate::gpu_document_mirror::GpuMirrorPlanError;
use crate::gpu_document_mirror_dispatcher::GpuMirrorDispatchError;
use crate::gpu_document_recovery::{
    GpuDocumentCheckpointBuildError, GpuDocumentRecoveryError, GpuDocumentRecoverySnapshotError,
};
use crate::gpu_document_target::{GpuDocumentTargetError, GpuDocumentTargetId};
use crate::gpu_document_undo::{GpuUndoPlanError, GpuUndoResourceError};
use crate::gpu_history_archive::ArchiveError;
use crate::gpu_history_recovery::GpuHistoryRecoveryError;
use crate::gpu_layer_recovery::{GpuExactLayerRecoveryBuildError, GpuExactLayerRecoveryReplayError};
use crate::gpu_live_recovery::GpuLiveRecoveryError;
use crate::gpu_mirror_capture::GpuMirrorReadbackError;
use crate::gpu_raster_recovery::{
    GpuExactRasterRecoveryBuildError, GpuExactRasterRecoveryMirrorError,
};
use crate::gpu_raster_replay::GpuExactRasterRecoveryReplayError;
use crate::gpu_raster_transition::GpuExactRasterRecoveryTransitionError;
use crate::gpu_recovery_journal::GpuRecoveryJournalError;
use crate::gpu_recovery_replay::GpuRasterRecoveryReplayError;
use crate::gpu_recovery_timeline::GpuRecoveryTimelineError;
use crate::gpu_resident_document::{GpuResidentDocumentError, GpuResidentRoundStrokeId};
use crate::gpu_revision_tasks::GpuRevisionTaskError;
use crate::gpu_round::RoundMaskError;
use crate::gpu_resident_round_stroke::GpuResidentRoundStrokeError;
use crate::gpu_round_recovery::{GpuRoundRecoveryBuildError, GpuRoundRecoveryReplayError};
use crate::gpu_round_target::RoundMaskTargetError;
use crate::gpu_stroke::GpuStrokeCommitError;
use crate::gpu_stroke_target::StrokeTargetError;
use crate::raster::{RectU32, TileCoord};
use crate::raster_layer::RasterError;
use crate::stroke::StrokeError;
use crate::text::{decimal, Message, Shown};
use vstd::prelude::*;

verus! {

impl Shown for LayerId {
    open spec fn shown(&self) -> Seq<char> {
        "LayerId("@ + self.0.shown() + ")"@
    }

    fn show(&self) -> (text: String) {
        Message::of("LayerId(").with(&self.0).and(")").finish()
    }
}

impl Shown for DocumentRevision {
    open spec fn shown(&self) -> Seq<char> {
        "DocumentRevision("@ + self.0.shown() + ")"@
    }

    fn show(&self) -> (text: String) {
        Message::of("DocumentRevision(").with(&self.0).and(")").finish()
    }
}

impl Shown for AtlasPageId {
    open spec fn shown(&self) -> Seq<char> {
        "AtlasPageId("@ + self.0.shown() + ")"@
    }

    fn show(&self) -> (text: String) {
        Message::of("AtlasPageId(").with(&self.0).and(")").finish()
    }
}

impl Shown for GpuHistoryId {
    open spec fn shown(&self) -> Seq<char> {
        "GpuHistoryId("@ + self.0.shown() + ")"@
    }

    fn show(&self) -> (text: String) {
        Message::of("GpuHistoryId(").with(&self.0).and(")").finish()
    }
}

impl Shown for GpuResidentRoundStrokeId {
    open spec fn shown(&self) -> Seq<char> {
        "GpuResidentRoundStrokeId("@ + self.0.shown() + ")"@
    }

    fn show(&self) -> (text: String) {
        Message::of("GpuResidentRoundStrokeId(").with(&self.0).and(")").finish()
    }
}

impl Shown for GpuDocumentTargetId {
    open spec fn shown(&self) -> Seq<char> {
        "GpuDocumentTargetId("@ + self.0.shown() + ")"@
    }

    fn show(&self) -> (text: String) {
        Message::of("GpuDocumentTargetId(").with(&self.0).and(")").finish()
    }
}

impl Shown for TileCoord {
    open spec fn shown(&self) -> Seq<char> {
        "TileCoord { x: "@ + self.x.shown() + ", y: "@ + self.y.shown() + " }"@
    }

    fn show(&self) -> (text: String) {
        Message::of("TileCoord { x: ").with(&self.x).and(", y: ").with(&self.y).and(" }").finish()
    }
}

impl Shown for RectU32 {
    open spec fn shown(&self) -> Seq<char> {
        "RectU32 { min_x: "@
            + decimal(self@.min_x as nat)
            + ", min_y: "@
            + decimal(self@.min_y as nat)
            + ", max_x: "@
            + decimal(self@.max_x as nat)
            + ", max_y: "@
            + decimal(self@.max_y as nat)
            + " }"@
    }

    fn show(&self) -> (text: String) {
        Message::of("RectU32 { min_x: ")
            .with(&self.min_x)
            .and(", min_y: ")
            .with(&self.min_y)
            .and(", max_x: ")
            .with(&self.max_x)
            .and(", max_y: ")
            .with(&self.max_y)
            .and(" }")
            .finish()
    }
}

impl Shown for LayerTileKey {
    open spec fn shown(&self) -> Seq<char> {
        "LayerTileKey { layer: "@ + self.layer.shown() + ", tile: "@ + self.tile.shown() + " }"@
    }

    fn show(&self) -> (text: String) {
        Message::of("LayerTileKey { layer: ")
            .with(&self.layer)
            .and(", tile: ")
            .with(&self.tile)
            .and(" }")
            .finish()
    }
}

impl Shown for AtlasSlot {
    open spec fn shown(&self) -> Seq<char> {
        "AtlasSlot { page: "@
            + self.page.shown()
            + ", slot_in_page: "@
            + self.slot_in_page.shown()
            + ", origin_x: "@
            + self.origin_x.shown()
            + ", origin_y: "@
            + self.origin_y.shown()
            + " }"@
    }

    fn show(&self) -> (text: String) {
        Message::of("AtlasSlot { page: ")
            .with(&self.page)
            .and(", slot_in_page: ")
            .with(&self.slot_in_page)
            .and(", origin_x: ")
            .with(&self.origin_x)
            .and(", origin_y: ")
            .with(&self.origin_y)
            .and(" }")
            .finish()
    }
}

impl Shown for AtlasLayout {
    open spec fn shown(&self) -> Seq<char> {
        "AtlasLayout { page_size: "@
            + decimal(self@.page_size as nat)
            + ", tile_size: "@
            + decimal(self@.tile_size as nat)
            + ", max_pages: "@
            + decimal(self@.max_pages as nat)
            + " }"@
    }

    fn show(&self) -> (text: String) {
        Message::of("AtlasLayout { page_size: ")
            .with(&self.page_size)
            .and(", tile_size: ")
            .with(&self.tile_size)
            .and(", max_pages: ")
            .with(&self.max_pages)
            .and(" }")
            .finish()
    }
}

/// The number of an ID, where there is one.
pub open spec fn raw_id(id: Option<GpuHistoryId>) -> Option<u64> {
    match id {
        Some(id) => Some(id.0),
        None => None,
    }
}

fn id_number(id: Option<GpuHistoryId>) -> (number: Option<u64>)
    ensures
        number == raw_id(id),
{
    match id {
        Some(id) => Some(id.get()),
        None => None,
    }
}

impl Shown for StrokeError {
    open spec fn shown(&self) -> Seq<char> {
        match self {
            StrokeError::PathAlreadyActive => "path already active"@,
            StrokeError::PathNotActive => "path not active"@,
            StrokeError::DiscontinuousPath => "discontinuous path"@,
            StrokeError::InvalidContact => "invalid contact"@,
            StrokeError::InvalidMaterial => "invalid material"@,
            StrokeError::InvalidBrush => "invalid brush"@,
        }
    }

    fn show(&self) -> (text: String) {
        match self {
            StrokeError::PathAlreadyActive => Message::of("path already active").finish(),
            StrokeError::PathNotActive => Message::of("path not active").finish(),
            StrokeError::DiscontinuousPath => Message::of("discontinuous path").finish(),
            StrokeError::InvalidContact => Message::of("invalid contact").finish(),
            StrokeError::InvalidMaterial => Message::of("invalid material").finish(),
            StrokeError::InvalidBrush => Message::of("invalid brush").finish(),
        }
    }
}

impl Shown for RasterError {
    open spec fn shown(&self) -> Seq<char> {
        match self {
            RasterError::EmptyCanvas => "empty canvas"@,
            RasterError::InvalidTileSize => "invalid tile size"@,
            RasterError::TileStorageOverflow => "tile storage overflow"@,
            RasterError::TileOutOfBounds(value) => "tile out of bounds: "@ + value.shown(),
            RasterError::InvalidTilePixelCount { tile, expected, actual } => "invalid tile pixel count: tile "@
                + tile.shown()
                + ", expected "@
                + expected.shown()
                + ", actual "@
                + actual.shown(),
            RasterError::DamageOutsideTile { tile, damage, valid_width, valid_height } => "damage outside tile: tile "@
                + tile.shown()
                + ", damage "@
                + damage.shown()
                + ", valid width "@
                + valid_width.shown()
                + ", valid height "@
                + valid_height.shown(),
            RasterError::PixelOutOfBounds { x, y } => "pixel out of bounds: x "@
                + x.shown()
                + ", y "@
                + y.shown(),
            RasterError::GestureActive => "gesture active"@,
            RasterError::GestureMismatch => "gesture mismatch"@,
            RasterError::GestureIdsExhausted => "gesture ids exhausted"@,
        }
    }

    fn show(&self) -> (text: String) {
        match self {
            RasterError::EmptyCanvas => Message::of("empty canvas").finish(),
            RasterError::InvalidTileSize => Message::of("invalid tile size").finish(),
            RasterError::TileStorageOverflow => Message::of("tile storage overflow").finish(),
            RasterError::TileOutOfBounds(value) => Message::of("tile out of bounds: ")
                .with(value)
                .finish(),
            RasterError::InvalidTilePixelCount { tile, expected, actual } => Message::of("invalid tile pixel count: tile ")
                .with(tile)
                .and(", expected ")
                .with(expected)
                .and(", actual ")
                .with(actual)
                .finish(),
            RasterError::DamageOutsideTile { tile, damage, valid_width, valid_height } => Message::of("damage outside tile: tile ")
                .with(tile)
                .and(", damage ")
                .with(damage)
                .and(", valid width ")
                .with(valid_width)
                .and(", valid height ")
                .with(valid_height)
                .finish(),
            RasterError::PixelOutOfBounds { x, y } => Message::of("pixel out of bounds: x ")
                .with(x)
                .and(", y ")
                .with(y)
                .finish(),
            RasterError::GestureActive => Message::of("gesture active").finish(),
            RasterError::GestureMismatch => Message::of("gesture mismatch").finish(),
            RasterError::GestureIdsExhausted => Message::of("gesture ids exhausted").finish(),
        }
    }
}

impl Shown for AtlasError {
    open spec fn shown(&self) -> Seq<char> {
        match self {
            AtlasError::InvalidLayout { page_size, tile_size, max_pages } => "invalid layout: page size "@
                + page_size.shown()
                + ", tile size "@
                + tile_size.shown()
                + ", max pages "@
                + max_pages.shown(),
            AtlasError::CapacityOverflow => "capacity overflow"@,
            AtlasError::CapacityExhausted { capacity } => "capacity exhausted: capacity "@
                + capacity.shown(),
            AtlasError::NotResident(value) => "not resident: "@ + value.shown(),
        }
    }

    fn show(&self) -> (text: String) {
        match self {
            AtlasError::InvalidLayout { page_size, tile_size, max_pages } => Message::of("invalid layout: page size ")
                .with(page_size)
                .and(", tile size ")
                .with(tile_size)
                .and(", max pages ")
                .with(max_pages)
                .finish(),
            AtlasError::CapacityOverflow => Message::of("capacity overflow").finish(),
            AtlasError::CapacityExhausted { capacity } => Message::of("capacity exhausted: capacity ")
                .with(capacity)
                .finish(),
            AtlasError::NotResident(value) => Message::of("not resident: ").with(value).finish(),
        }
    }
}

impl Shown for DocumentError {
    open spec fn shown(&self) -> Seq<char> {
        match self {
            DocumentError::Metadata(value) => "metadata: "@ + value.shown(),
            DocumentError::NoLayers => "no layers"@,
            DocumentError::LayerGeometryMismatch(value) => "layer geometry mismatch: "@
                + value.shown(),
            DocumentError::DuplicateLayer(value) => "duplicate layer: "@ + value.shown(),
            DocumentError::InvalidOpacity(value) => "invalid opacity: "@ + value.shown(),
            DocumentError::LayerIdExhausted => "layer id exhausted"@,
            DocumentError::LayerNotFound(value) => "layer not found: "@ + value.shown(),
        }
    }

    fn show(&self) -> (text: String) {
        match self {
            DocumentError::Metadata(value) => Message::of("metadata: ").with(value).finish(),
            DocumentError::NoLayers => Message::of("no layers").finish(),
            DocumentError::LayerGeometryMismatch(value) => Message::of("layer geometry mismatch: ")
                .with(value)
                .finish(),
            DocumentError::DuplicateLayer(value) => Message::of("duplicate layer: ")
                .with(value)
                .finish(),
            DocumentError::InvalidOpacity(value) => Message::of("invalid opacity: ")
                .with(value)
                .finish(),
            DocumentError::LayerIdExhausted => Message::of("layer id exhausted").finish(),
            DocumentError::LayerNotFound(value) => Message::of("layer not found: ")
                .with(value)
                .finish(),
        }
    }
}

impl Shown for DocumentMetadataError {
    open spec fn shown(&self) -> Seq<char> {
        match self {
            DocumentMetadataError::EmptyCanvas => "empty canvas"@,
            DocumentMetadataError::InvalidTileSize => "invalid tile size"@,
            DocumentMetadataError::TileStorageOverflow => "tile storage overflow"@,
            DocumentMetadataError::LayerNotFound(value) => "layer not found: "@ + value.shown(),
            DocumentMetadataError::InvalidOpacity => "invalid opacity"@,
            DocumentMetadataError::InvalidDestination { destination, layers } => "invalid destination: destination "@
                + destination.shown()
                + ", layers "@
                + layers.shown(),
            DocumentMetadataError::CannotDeleteLastLayer => "cannot delete last layer"@,
            DocumentMetadataError::LayerIdExhausted => "layer id exhausted"@,
            DocumentMetadataError::EditConflict(value) => "edit conflict: "@ + value.shown(),
        }
    }

    fn show(&self) -> (text: String) {
        match self {
            DocumentMetadataError::EmptyCanvas => Message::of("empty canvas").finish(),
            DocumentMetadataError::InvalidTileSize => Message::of("invalid tile size").finish(),
            DocumentMetadataError::TileStorageOverflow => Message::of("tile storage overflow")
                .finish(),
            DocumentMetadataError::LayerNotFound(value) => Message::of("layer not found: ")
                .with(value)
                .finish(),
            DocumentMetadataError::InvalidOpacity => Message::of("invalid opacity").finish(),
            DocumentMetadataError::InvalidDestination { destination, layers } => Message::of("invalid destination: destination ")
                .with(destination)
                .and(", layers ")
                .with(layers)
                .finish(),
            DocumentMetadataError::CannotDeleteLastLayer => Message::of("cannot delete last layer")
                .finish(),
            DocumentMetadataError::LayerIdExhausted => Message::of("layer id exhausted").finish(),
            DocumentMetadataError::EditConflict(value) => Message::of("edit conflict: ")
                .with(value)
                .finish(),
        }
    }
}

impl Shown for GpuHistoryEntryKind {
    open spec fn shown(&self) -> Seq<char> {
        match self {
            GpuHistoryEntryKind::Raster => "raster"@,
            GpuHistoryEntryKind::Metadata => "metadata"@,
        }
    }

    fn show(&self) -> (text: String) {
        match self {
            GpuHistoryEntryKind::Raster => Message::of("raster").finish(),
            GpuHistoryEntryKind::Metadata => Message::of("metadata").finish(),
        }
    }
}

impl Shown for GpuDocumentHistoryError {
    open spec fn shown(&self) -> Seq<char> {
        match self {
            GpuDocumentHistoryError::InvalidMaximumEntries => "invalid maximum entries"@,
            GpuDocumentHistoryError::InvalidMaximumBytes => "invalid maximum bytes"@,
            GpuDocumentHistoryError::OperationPending(value) => "operation pending: "@
                + value.shown(),
            GpuDocumentHistoryError::NoPendingOperation => "no pending operation"@,
            GpuDocumentHistoryError::EntryKindMismatch { expected, actual } => "entry kind mismatch: expected "@
                + expected.shown()
                + ", actual "@
                + actual.shown(),
        }
    }

    fn show(&self) -> (text: String) {
        match self {
            GpuDocumentHistoryError::InvalidMaximumEntries => Message::of("invalid maximum entries")
                .finish(),
            GpuDocumentHistoryError::InvalidMaximumBytes => Message::of("invalid maximum bytes")
                .finish(),
            GpuDocumentHistoryError::OperationPending(value) => Message::of("operation pending: ")
                .with(value)
                .finish(),
            GpuDocumentHistoryError::NoPendingOperation => Message::of("no pending operation")
                .finish(),
            GpuDocumentHistoryError::EntryKindMismatch { expected, actual } => Message::of("entry kind mismatch: expected ")
                .with(expected)
                .and(", actual ")
                .with(actual)
                .finish(),
        }
    }
}

impl Shown for GpuHistoryRecordError {
    open spec fn shown(&self) -> Seq<char> {
        match self {
            GpuHistoryRecordError::OperationPending(value) => "operation pending: "@
                + value.shown(),
            GpuHistoryRecordError::HistoryIdExhausted => "history id exhausted"@,
            GpuHistoryRecordError::ByteLimitExceeded { requested, maximum } => "byte limit exceeded: requested "@
                + requested.shown()
                + ", maximum "@
                + maximum.shown(),
            GpuHistoryRecordError::NotResident(value) => "not resident: "@ + value.shown(),
        }
    }

    fn show(&self) -> (text: String) {
        match self {
            GpuHistoryRecordError::OperationPending(value) => Message::of("operation pending: ")
                .with(value)
                .finish(),
            GpuHistoryRecordError::HistoryIdExhausted => Message::of("history id exhausted")
                .finish(),
            GpuHistoryRecordError::ByteLimitExceeded { requested, maximum } => Message::of("byte limit exceeded: requested ")
                .with(requested)
                .and(", maximum ")
                .with(maximum)
                .finish(),
            GpuHistoryRecordError::NotResident(value) => Message::of("not resident: ")
                .with(value)
                .finish(),
        }
    }
}

impl Shown for GpuExactRasterRecoveryTransitionError {
    open spec fn shown(&self) -> Seq<char> {
        match self {
            GpuExactRasterRecoveryTransitionError::TileSizeMismatch { expected, actual } => "tile size mismatch: expected "@
                + expected.shown()
                + ", actual "@
                + actual.shown(),
            GpuExactRasterRecoveryTransitionError::After(value) => "after: "@ + value.shown(),
            GpuExactRasterRecoveryTransitionError::Before(value) => "before: "@ + value.shown(),
            GpuExactRasterRecoveryTransitionError::ByteCountOverflow => "byte count overflow"@,
        }
    }

    fn show(&self) -> (text: String) {
        match self {
            GpuExactRasterRecoveryTransitionError::TileSizeMismatch { expected, actual } => Message::of("tile size mismatch: expected ")
                .with(expected)
                .and(", actual ")
                .with(actual)
                .finish(),
            GpuExactRasterRecoveryTransitionError::After(value) => Message::of("after: ")
                .with(value)
                .finish(),
            GpuExactRasterRecoveryTransitionError::Before(value) => Message::of("before: ")
                .with(value)
                .finish(),
            GpuExactRasterRecoveryTransitionError::ByteCountOverflow => Message::of("byte count overflow")
                .finish(),
        }
    }
}

impl Shown for GpuMirrorPlanError {
    open spec fn shown(&self) -> Seq<char> {
        match self {
            GpuMirrorPlanError::BatchBudgetTooSmall { requested, minimum } => "GPU mirror batch budget "@
                + requested.shown()
                + " is smaller than one "@
                + minimum.shown()
                + "-byte block"@,
            GpuMirrorPlanError::ResidentStateCountMismatch { regions, states } => "GPU mirror has "@
                + regions.shown()
                + " copy regions but "@
                + states.shown()
                + " resident states"@,
            GpuMirrorPlanError::ResidentIdentityMismatch {
                region_key,
                region_slot,
                state_key,
                state_slot,
            } => "GPU mirror region ("@
                + region_key.shown()
                + ", "@
                + region_slot.shown()
                + ") does not match resident state ("@
                + state_key.shown()
                + ", "@
                + state_slot.shown()
                + ")"@,
            GpuMirrorPlanError::RegionRowExceedsBatch { bytes_per_block_row, maximum } => "one GPU mirror block row needs "@
                + bytes_per_block_row.shown()
                + " bytes but the batch limit is "@
                + maximum.shown(),
            GpuMirrorPlanError::BatchCountOverflow => "GPU mirror batch count overflows"@,
            GpuMirrorPlanError::ArithmeticOverflow => "GPU mirror plan size overflows"@,
        }
    }

    fn show(&self) -> (text: String) {
        match self {
            GpuMirrorPlanError::BatchBudgetTooSmall { requested, minimum } => Message::of("GPU mirror batch budget ")
                .with(requested)
                .and(" is smaller than one ")
                .with(minimum)
                .and("-byte block")
                .finish(),
            GpuMirrorPlanError::ResidentStateCountMismatch { regions, states } => Message::of("GPU mirror has ")
                .with(regions)
                .and(" copy regions but ")
                .with(states)
                .and(" resident states")
                .finish(),
            GpuMirrorPlanError::ResidentIdentityMismatch {
                region_key,
                region_slot,
                state_key,
                state_slot,
            } => Message::of("GPU mirror region (")
                .with(region_key)
                .and(", ")
                .with(region_slot)
                .and(") does not match resident state (")
                .with(state_key)
                .and(", ")
                .with(state_slot)
                .and(")")
                .finish(),
            GpuMirrorPlanError::RegionRowExceedsBatch { bytes_per_block_row, maximum } => Message::of("one GPU mirror block row needs ")
                .with(bytes_per_block_row)
                .and(" bytes but the batch limit is ")
                .with(maximum)
                .finish(),
            GpuMirrorPlanError::BatchCountOverflow => Message::of("GPU mirror batch count overflows")
                .finish(),
            GpuMirrorPlanError::ArithmeticOverflow => Message::of("GPU mirror plan size overflows")
                .finish(),
        }
    }
}

impl GpuMirrorPlanError {
    pub fn message(&self) -> (text: String)
        ensures
            text@ == self.shown(),
    {
        self.show()
    }
}

impl Shown for GpuMirrorReadbackError {
    open spec fn shown(&self) -> Seq<char> {
        match self {
            GpuMirrorReadbackError::LayoutMismatch { expected, actual } => "GPU mirror layout mismatch: expected "@
                + expected.shown()
                + ", got "@
                + actual.shown(),
            GpuMirrorReadbackError::BufferTooLarge { requested, maximum } => "GPU mirror buffer "@
                + requested.shown()
                + " exceeds device limit "@
                + maximum.shown(),
            GpuMirrorReadbackError::ResidentMismatch { slot, expected, actual } => "GPU mirror slot "@
                + slot.shown()
                + " expected resident "@
                + expected.shown()
                + ", found "@
                + actual.shown(),
            GpuMirrorReadbackError::MissingColorPage(value) => "GPU mirror color page "@
                + value.shown()
                + " does not exist"@,
            GpuMirrorReadbackError::EmptyRevisionPlan => "GPU mirror revision plan is empty"@,
            GpuMirrorReadbackError::CaptureAlreadySubmitted => "GPU mirror revision capture was already submitted"@,
            GpuMirrorReadbackError::CaptureNotSubmitted => "GPU mirror revision capture was not submitted"@,
            GpuMirrorReadbackError::ReadbackAlreadyPrepared => "a GPU mirror staging readback is already prepared"@,
            GpuMirrorReadbackError::NoReadbackPrepared => "no GPU mirror staging readback is prepared"@,
            GpuMirrorReadbackError::ReadbackNotSubmitted => "GPU mirror staging readback was not submitted"@,
            GpuMirrorReadbackError::ReadbackAlreadySubmitted => "GPU mirror staging readback was already submitted"@,
            GpuMirrorReadbackError::CannotDiscardSubmittedReadback => "a submitted GPU mirror staging readback cannot be discarded"@,
            GpuMirrorReadbackError::MapAlreadyStarted => "GPU mirror mapping already started"@,
            GpuMirrorReadbackError::MapNotStarted => "GPU mirror mapping has not started"@,
            GpuMirrorReadbackError::MapAlreadyFinished => "GPU mirror mapping already finished"@,
            GpuMirrorReadbackError::MapChannelDisconnected => "GPU mirror map channel disconnected"@,
            GpuMirrorReadbackError::BufferAccess(value) => value@,
            GpuMirrorReadbackError::InvalidMappedRegion => "GPU mirror mapped region is invalid"@,
            GpuMirrorReadbackError::MapFailed => "Error occurred when trying to async map a buffer"@,
        }
    }

    fn show(&self) -> (text: String) {
        match self {
            GpuMirrorReadbackError::LayoutMismatch { expected, actual } => Message::of("GPU mirror layout mismatch: expected ")
                .with(expected)
                .and(", got ")
                .with(actual)
                .finish(),
            GpuMirrorReadbackError::BufferTooLarge { requested, maximum } => Message::of("GPU mirror buffer ")
                .with(requested)
                .and(" exceeds device limit ")
                .with(maximum)
                .finish(),
            GpuMirrorReadbackError::ResidentMismatch { slot, expected, actual } => Message::of("GPU mirror slot ")
                .with(slot)
                .and(" expected resident ")
                .with(expected)
                .and(", found ")
                .with(actual)
                .finish(),
            GpuMirrorReadbackError::MissingColorPage(value) => Message::of("GPU mirror color page ")
                .with(value)
                .and(" does not exist")
                .finish(),
            GpuMirrorReadbackError::EmptyRevisionPlan => Message::of("GPU mirror revision plan is empty")
                .finish(),
            GpuMirrorReadbackError::CaptureAlreadySubmitted => Message::of("GPU mirror revision capture was already submitted")
                .finish(),
            GpuMirrorReadbackError::CaptureNotSubmitted => Message::of("GPU mirror revision capture was not submitted")
                .finish(),
            GpuMirrorReadbackError::ReadbackAlreadyPrepared => Message::of("a GPU mirror staging readback is already prepared")
                .finish(),
            GpuMirrorReadbackError::NoReadbackPrepared => Message::of("no GPU mirror staging readback is prepared")
                .finish(),
            GpuMirrorReadbackError::ReadbackNotSubmitted => Message::of("GPU mirror staging readback was not submitted")
                .finish(),
            GpuMirrorReadbackError::ReadbackAlreadySubmitted => Message::of("GPU mirror staging readback was already submitted")
                .finish(),
            GpuMirrorReadbackError::CannotDiscardSubmittedReadback => Message::of("a submitted GPU mirror staging readback cannot be discarded")
                .finish(),
            GpuMirrorReadbackError::MapAlreadyStarted => Message::of("GPU mirror mapping already started")
                .finish(),
            GpuMirrorReadbackError::MapNotStarted => Message::of("GPU mirror mapping has not started")
                .finish(),
            GpuMirrorReadbackError::MapAlreadyFinished => Message::of("GPU mirror mapping already finished")
                .finish(),
            GpuMirrorReadbackError::MapChannelDisconnected => Message::of("GPU mirror map channel disconnected")
                .finish(),
            GpuMirrorReadbackError::BufferAccess(value) => value.text.as_str().to_owned(),
            GpuMirrorReadbackError::InvalidMappedRegion => Message::of("GPU mirror mapped region is invalid")
                .finish(),
            GpuMirrorReadbackError::MapFailed => Message::of("Error occurred when trying to async map a buffer")
                .finish(),
        }
    }
}

impl GpuMirrorReadbackError {
    pub fn message(&self) -> (text: String)
        ensures
            text@ == self.shown(),
    {
        self.show()
    }
}

impl Shown for GpuMirrorReconcileError {
    open spec fn shown(&self) -> Seq<char> {
        match self {
            GpuMirrorReconcileError::EmptyCanvas => "GPU CPU mirror canvas is empty"@,
            GpuMirrorReconcileError::InvalidTileSize => "GPU CPU mirror tile size is zero"@,
            GpuMirrorReconcileError::TileStorageOverflow => "GPU CPU mirror tile size overflows"@,
            GpuMirrorReconcileError::TileSizeMismatch { expected, actual } => "GPU CPU mirror expected "@
                + expected.shown()
                + "-pixel tiles, got "@
                + actual.shown(),
            GpuMirrorReconcileError::RevisionNotNewer { latest, requested } => "GPU mirror revision "@
                + requested.0.shown()
                + " is not newer than "@
                + latest.0.shown(),
            GpuMirrorReconcileError::EmptyRevisionPlan => "GPU mirror revision plan is empty"@,
            GpuMirrorReconcileError::MalformedRevisionPlan => "GPU mirror revision plan is malformed"@,
            GpuMirrorReconcileError::UnknownRevision(value) => "GPU mirror revision "@
                + value.0.shown()
                + " was not registered"@,
            GpuMirrorReconcileError::BatchIndexOutOfRange { revision, index, count } => "GPU mirror revision "@
                + revision.0.shown()
                + " batch "@
                + index.shown()
                + " exceeds its "@
                + count.shown()
                + " batches"@,
            GpuMirrorReconcileError::DuplicateBatch { revision, index } => "GPU mirror revision "@
                + revision.0.shown()
                + " batch "@
                + index.shown()
                + " completed twice"@,
            GpuMirrorReconcileError::BatchByteMismatch { revision, index, expected, actual } => "GPU mirror revision "@
                + revision.0.shown()
                + " batch "@
                + index.shown()
                + " has "@
                + actual.shown()
                + " bytes, expected "@
                + expected.shown(),
            GpuMirrorReconcileError::BatchShapeMismatch { revision, index } => "GPU mirror revision "@
                + revision.0.shown()
                + " batch "@
                + index.shown()
                + " shape does not match its plan"@,
            GpuMirrorReconcileError::PatchRevisionMismatch { expected, actual } => "GPU mirror patch revision "@
                + actual.0.shown()
                + " does not match "@
                + expected.0.shown(),
            GpuMirrorReconcileError::TileCoordinateOverflow(value) => "GPU mirror tile coordinate overflows for "@
                + value.shown(),
            GpuMirrorReconcileError::TileOutOfBounds(value) => "GPU mirror tile "@
                + value.shown()
                + " is outside the canvas"@,
            GpuMirrorReconcileError::RegionOutsideTile { key, bounds, valid_extent } => "GPU mirror region "@
                + bounds.shown()
                + " for "@
                + key.shown()
                + " exceeds "@
                + valid_extent[0].shown()
                + "x"@
                + valid_extent[1].shown(),
            GpuMirrorReconcileError::ConflictingResidentState(value) => "GPU mirror has conflicting resident states for "@
                + value.shown(),
            GpuMirrorReconcileError::PixelCountOverflow => "GPU mirror pixel count overflows"@,
            GpuMirrorReconcileError::InvalidPixelCount { key, expected, actual } => "GPU mirror patch for "@
                + key.shown()
                + " has "@
                + actual.shown()
                + " pixels, expected "@
                + expected.shown(),
        }
    }

    fn show(&self) -> (text: String) {
        match self {
            GpuMirrorReconcileError::EmptyCanvas => Message::of("GPU CPU mirror canvas is empty")
                .finish(),
            GpuMirrorReconcileError::InvalidTileSize => Message::of("GPU CPU mirror tile size is zero")
                .finish(),
            GpuMirrorReconcileError::TileStorageOverflow => Message::of("GPU CPU mirror tile size overflows")
                .finish(),
            GpuMirrorReconcileError::TileSizeMismatch { expected, actual } => Message::of("GPU CPU mirror expected ")
                .with(expected)
                .and("-pixel tiles, got ")
                .with(actual)
                .finish(),
            GpuMirrorReconcileError::RevisionNotNewer { latest, requested } => Message::of("GPU mirror revision ")
                .with(&requested.get())
                .and(" is not newer than ")
                .with(&latest.get())
                .finish(),
            GpuMirrorReconcileError::EmptyRevisionPlan => Message::of("GPU mirror revision plan is empty")
                .finish(),
            GpuMirrorReconcileError::MalformedRevisionPlan => Message::of("GPU mirror revision plan is malformed")
                .finish(),
            GpuMirrorReconcileError::UnknownRevision(value) => Message::of("GPU mirror revision ")
                .with(&value.get())
                .and(" was not registered")
                .finish(),
            GpuMirrorReconcileError::BatchIndexOutOfRange { revision, index, count } => Message::of("GPU mirror revision ")
                .with(&revision.get())
                .and(" batch ")
                .with(index)
                .and(" exceeds its ")
                .with(count)
                .and(" batches")
                .finish(),
            GpuMirrorReconcileError::DuplicateBatch { revision, index } => Message::of("GPU mirror revision ")
                .with(&revision.get())
                .and(" batch ")
                .with(index)
                .and(" completed twice")
                .finish(),
            GpuMirrorReconcileError::BatchByteMismatch { revision, index, expected, actual } => Message::of("GPU mirror revision ")
                .with(&revision.get())
                .and(" batch ")
                .with(index)
                .and(" has ")
                .with(actual)
                .and(" bytes, expected ")
                .with(expected)
                .finish(),
            GpuMirrorReconcileError::BatchShapeMismatch { revision, index } => Message::of("GPU mirror revision ")
                .with(&revision.get())
                .and(" batch ")
                .with(index)
                .and(" shape does not match its plan")
                .finish(),
            GpuMirrorReconcileError::PatchRevisionMismatch { expected, actual } => Message::of("GPU mirror patch revision ")
                .with(&actual.get())
                .and(" does not match ")
                .with(&expected.get())
                .finish(),
            GpuMirrorReconcileError::TileCoordinateOverflow(value) => Message::of("GPU mirror tile coordinate overflows for ")
                .with(value)
                .finish(),
            GpuMirrorReconcileError::TileOutOfBounds(value) => Message::of("GPU mirror tile ")
                .with(value)
                .and(" is outside the canvas")
                .finish(),
            GpuMirrorReconcileError::RegionOutsideTile { key, bounds, valid_extent } => Message::of("GPU mirror region ")
                .with(bounds)
                .and(" for ")
                .with(key)
                .and(" exceeds ")
                .with(&valid_extent[0])
                .and("x")
                .with(&valid_extent[1])
                .finish(),
            GpuMirrorReconcileError::ConflictingResidentState(value) => Message::of("GPU mirror has conflicting resident states for ")
                .with(value)
                .finish(),
            GpuMirrorReconcileError::PixelCountOverflow => Message::of("GPU mirror pixel count overflows")
                .finish(),
            GpuMirrorReconcileError::InvalidPixelCount { key, expected, actual } => Message::of("GPU mirror patch for ")
                .with(key)
                .and(" has ")
                .with(actual)
                .and(" pixels, expected ")
                .with(expected)
                .finish(),
        }
    }
}

impl GpuMirrorReconcileError {
    pub fn message(&self) -> (text: String)
        ensures
            text@ == self.shown(),
    {
        self.show()
    }
}

impl Shown for GpuMirrorDispatchError {
    open spec fn shown(&self) -> Seq<char> {
        match self {
            GpuMirrorDispatchError::InvalidSnapshotBudget { requested, minimum } => "GPU mirror snapshot budget "@
                + requested.shown()
                + " is smaller than one "@
                + minimum.shown()
                + "-byte block"@,
            GpuMirrorDispatchError::InvalidStagingBudget { requested, minimum } => "GPU mirror staging budget "@
                + requested.shown()
                + " is smaller than one "@
                + minimum.shown()
                + "-byte block"@,
            GpuMirrorDispatchError::EmptyRevisionPlan => "GPU mirror revision plan is empty"@,
            GpuMirrorDispatchError::CaptureNotSubmitted => "GPU mirror capture was not submitted"@,
            GpuMirrorDispatchError::CapturePlanMismatch => "GPU mirror capture does not match its revision plan"@,
            GpuMirrorDispatchError::CaptureExceedsSnapshotBudget { requested, maximum } => "GPU mirror capture needs "@
                + requested.shown()
                + " snapshot bytes but the limit is "@
                + maximum.shown(),
            GpuMirrorDispatchError::SnapshotBudgetExhausted { resident, requested, maximum } => "GPU mirror has "@
                + resident.shown()
                + " snapshot bytes and cannot reserve "@
                + requested.shown()
                + " within "@
                + maximum.shown(),
            GpuMirrorDispatchError::BatchExceedsStagingBudget {
                revision,
                index,
                requested,
                maximum,
            } => "GPU mirror revision "@
                + revision.0.shown()
                + " batch "@
                + index.shown()
                + " needs "@
                + requested.shown()
                + " staging bytes but the limit is "@
                + maximum.shown(),
            GpuMirrorDispatchError::SnapshotByteOverflow => "GPU mirror snapshot bytes overflow"@,
            GpuMirrorDispatchError::StagingBudgetInvariant { requested, maximum } => "GPU mirror prepared "@
                + requested.shown()
                + " staging bytes after accepting a "@
                + maximum.shown()
                + "-byte limit"@,
            GpuMirrorDispatchError::NoPendingRevision => "GPU mirror has no pending revision"@,
            GpuMirrorDispatchError::CompletedRevisionNotApplied(value) => "GPU mirror completed revision "@
                + value.0.shown()
                + " without applying it"@,
            GpuMirrorDispatchError::Readback(value) => value.shown(),
            GpuMirrorDispatchError::Reconcile(value) => value.shown(),
            GpuMirrorDispatchError::RevisionNotNext { latest, source, revision } => "revision not next: latest "@
                + latest.shown()
                + ", source "@
                + source.shown()
                + ", revision "@
                + revision.shown(),
            GpuMirrorDispatchError::LayerGeometryMismatch(value) => "layer geometry mismatch: "@
                + value.shown(),
            GpuMirrorDispatchError::Transition(value) => value.shown(),
        }
    }

    fn show(&self) -> (text: String) {
        match self {
            GpuMirrorDispatchError::InvalidSnapshotBudget { requested, minimum } => Message::of("GPU mirror snapshot budget ")
                .with(requested)
                .and(" is smaller than one ")
                .with(minimum)
                .and("-byte block")
                .finish(),
            GpuMirrorDispatchError::InvalidStagingBudget { requested, minimum } => Message::of("GPU mirror staging budget ")
                .with(requested)
                .and(" is smaller than one ")
                .with(minimum)
                .and("-byte block")
                .finish(),
            GpuMirrorDispatchError::EmptyRevisionPlan => Message::of("GPU mirror revision plan is empty")
                .finish(),
            GpuMirrorDispatchError::CaptureNotSubmitted => Message::of("GPU mirror capture was not submitted")
                .finish(),
            GpuMirrorDispatchError::CapturePlanMismatch => Message::of("GPU mirror capture does not match its revision plan")
                .finish(),
            GpuMirrorDispatchError::CaptureExceedsSnapshotBudget { requested, maximum } => Message::of("GPU mirror capture needs ")
                .with(requested)
                .and(" snapshot bytes but the limit is ")
                .with(maximum)
                .finish(),
            GpuMirrorDispatchError::SnapshotBudgetExhausted { resident, requested, maximum } => Message::of("GPU mirror has ")
                .with(resident)
                .and(" snapshot bytes and cannot reserve ")
                .with(requested)
                .and(" within ")
                .with(maximum)
                .finish(),
            GpuMirrorDispatchError::BatchExceedsStagingBudget {
                revision,
                index,
                requested,
                maximum,
            } => Message::of("GPU mirror revision ")
                .with(&revision.get())
                .and(" batch ")
                .with(index)
                .and(" needs ")
                .with(requested)
                .and(" staging bytes but the limit is ")
                .with(maximum)
                .finish(),
            GpuMirrorDispatchError::SnapshotByteOverflow => Message::of("GPU mirror snapshot bytes overflow")
                .finish(),
            GpuMirrorDispatchError::StagingBudgetInvariant { requested, maximum } => Message::of("GPU mirror prepared ")
                .with(requested)
                .and(" staging bytes after accepting a ")
                .with(maximum)
                .and("-byte limit")
                .finish(),
            GpuMirrorDispatchError::NoPendingRevision => Message::of("GPU mirror has no pending revision")
                .finish(),
            GpuMirrorDispatchError::CompletedRevisionNotApplied(value) => Message::of("GPU mirror completed revision ")
                .with(&value.get())
                .and(" without applying it")
                .finish(),
            GpuMirrorDispatchError::Readback(value) => value.show(),
            GpuMirrorDispatchError::Reconcile(value) => value.show(),
            GpuMirrorDispatchError::RevisionNotNext { latest, source, revision } => Message::of("revision not next: latest ")
                .with(latest)
                .and(", source ")
                .with(source)
                .and(", revision ")
                .with(revision)
                .finish(),
            GpuMirrorDispatchError::LayerGeometryMismatch(value) => Message::of("layer geometry mismatch: ")
                .with(value)
                .finish(),
            GpuMirrorDispatchError::Transition(value) => value.show(),
        }
    }
}

impl GpuMirrorDispatchError {
    pub fn message(&self) -> (text: String)
        ensures
            text@ == self.shown(),
    {
        self.show()
    }
}

impl Shown for GpuDocumentRecoverySnapshotError {
    open spec fn shown(&self) -> Seq<char> {
        match self {
            GpuDocumentRecoverySnapshotError::RevisionMismatch { metadata, rasters } => "GPU recovery metadata revision "@
                + metadata.0.shown()
                + " does not match raster revision "@
                + rasters.0.shown(),
            GpuDocumentRecoverySnapshotError::GeometryMismatch {
                metadata_dimensions,
                raster_dimensions,
                metadata_tile_size,
                raster_tile_size,
            } => "GPU recovery metadata "@
                + metadata_dimensions[0].shown()
                + "x"@
                + metadata_dimensions[1].shown()
                + " / tile "@
                + metadata_tile_size.shown()
                + " does not match rasters "@
                + raster_dimensions[0].shown()
                + "x"@
                + raster_dimensions[1].shown()
                + " / tile "@
                + raster_tile_size.shown(),
        }
    }

    fn show(&self) -> (text: String) {
        match self {
            GpuDocumentRecoverySnapshotError::RevisionMismatch { metadata, rasters } => Message::of("GPU recovery metadata revision ")
                .with(&metadata.get())
                .and(" does not match raster revision ")
                .with(&rasters.get())
                .finish(),
            GpuDocumentRecoverySnapshotError::GeometryMismatch {
                metadata_dimensions,
                raster_dimensions,
                metadata_tile_size,
                raster_tile_size,
            } => Message::of("GPU recovery metadata ")
                .with(&metadata_dimensions[0])
                .and("x")
                .with(&metadata_dimensions[1])
                .and(" / tile ")
                .with(metadata_tile_size)
                .and(" does not match rasters ")
                .with(&raster_dimensions[0])
                .and("x")
                .with(&raster_dimensions[1])
                .and(" / tile ")
                .with(raster_tile_size)
                .finish(),
        }
    }
}

impl GpuDocumentRecoverySnapshotError {
    pub fn message(&self) -> (text: String)
        ensures
            text@ == self.shown(),
    {
        self.show()
    }
}

impl Shown for GpuDocumentRecoveryError {
    open spec fn shown(&self) -> Seq<char> {
        match self {
            GpuDocumentRecoveryError::Raster { layer, error } => "could not recover GPU layer "@
                + layer.0.shown()
                + ": "@
                + error.shown(),
            GpuDocumentRecoveryError::Document(value) => value.shown(),
        }
    }

    fn show(&self) -> (text: String) {
        match self {
            GpuDocumentRecoveryError::Raster { layer, error } => Message::of("could not recover GPU layer ")
                .with(&layer.get())
                .and(": ")
                .with(error)
                .finish(),
            GpuDocumentRecoveryError::Document(value) => value.show(),
        }
    }
}

impl GpuDocumentRecoveryError {
    pub fn message(&self) -> (text: String)
        ensures
            text@ == self.shown(),
    {
        self.show()
    }
}

impl<E: Shown> Shown for GpuDocumentCheckpointBuildError<E> {
    open spec fn shown(&self) -> Seq<char> {
        match self {
            GpuDocumentCheckpointBuildError::Recovery(error) => error.shown(),
            GpuDocumentCheckpointBuildError::Checkpoint(error) => error.shown(),
        }
    }

    fn show(&self) -> (text: String) {
        match self {
            GpuDocumentCheckpointBuildError::Recovery(error) => error.show(),
            GpuDocumentCheckpointBuildError::Checkpoint(error) => error.show(),
        }
    }
}

impl<E: Shown> GpuDocumentCheckpointBuildError<E> {
    pub fn message(&self) -> (text: String)
        ensures
            text@ == self.shown(),
    {
        self.show()
    }
}

impl Shown for GpuDocumentTargetError {
    open spec fn shown(&self) -> Seq<char> {
        match self {
            GpuDocumentTargetError::PageExceedsDeviceLimit { requested, maximum } => "GPU document page size "@
                + requested.shown()
                + " exceeds device limit "@
                + maximum.shown(),
            GpuDocumentTargetError::Float32BlendingUnavailable => "Rgba32Float document blending is unavailable"@,
            GpuDocumentTargetError::TargetIdentityOverflow => "GPU target identity overflows"@,
            GpuDocumentTargetError::TargetTokenMismatch { expected, actual } => "GPU token belongs to target "@
                + actual.0.shown()
                + ", not target "@
                + expected.0.shown(),
            GpuDocumentTargetError::LayoutMismatch { expected, actual } => "GPU document layout mismatch: expected "@
                + expected.shown()
                + ", got "@
                + actual.shown(),
            GpuDocumentTargetError::UnsupportedAccumulation => "GPU color commit currently requires full flow"@,
            GpuDocumentTargetError::MaskStrokeStillActive => "the round mask stroke must end before color commit"@,
            GpuDocumentTargetError::MaskBatchAwaitingSubmission => "the round mask batch is awaiting submission"@,
            GpuDocumentTargetError::CommitAwaitingSubmission => "a GPU document commit is awaiting submission"@,
            GpuDocumentTargetError::CommitTokenMismatch => "GPU document commit token does not match"@,
            GpuDocumentTargetError::MementoCommitTokenRequired => "GPU document commit requires its memento token"@,
            GpuDocumentTargetError::CommitSerialOverflow => "GPU commit serial overflows"@,
            GpuDocumentTargetError::NoEncodedCommit => "no GPU document commit is pending"@,
            GpuDocumentTargetError::UndoPlan(value) => value.shown(),
            GpuDocumentTargetError::UndoResource(value) => value.shown(),
            GpuDocumentTargetError::UndoSwapAwaitingSubmission => "a GPU undo swap is awaiting submission"@,
            GpuDocumentTargetError::NoEncodedUndoSwap => "no GPU undo swap is pending"@,
            GpuDocumentTargetError::UndoSwapTokenMismatch => "GPU undo swap token does not match"@,
            GpuDocumentTargetError::UndoSwapSerialOverflow => "GPU undo swap serial overflows"@,
            GpuDocumentTargetError::UndoResidentMismatch { slot, expected, actual } => "GPU undo slot "@
                + slot.shown()
                + " expected resident "@
                + expected.shown()
                + ", found "@
                + actual.shown(),
            GpuDocumentTargetError::MissingMaskPage(value) => "round mask page "@
                + value.0.shown()
                + " does not exist"@,
            GpuDocumentTargetError::MissingColorPage(value) => "GPU color page "@
                + value.0.shown()
                + " does not exist"@,
            GpuDocumentTargetError::PageOutOfRange { page, maximum_pages } => "GPU document page "@
                + page.shown()
                + " exceeds the "@
                + maximum_pages.shown()
                + "-page layout"@,
            GpuDocumentTargetError::InstanceCountOverflow => "GPU commit instance count overflows"@,
            GpuDocumentTargetError::InstanceBufferOverflow => "GPU commit buffer size overflows"@,
            GpuDocumentTargetError::InstanceBufferTooLarge { requested, maximum } => "GPU commit instance buffer "@
                + requested.shown()
                + " exceeds device limit "@
                + maximum.shown(),
            GpuDocumentTargetError::UndoCopySizeOverflow => "GPU undo copy size overflows"@,
            GpuDocumentTargetError::UndoScratchTooLarge { requested, maximum } => "GPU undo scratch buffer "@
                + requested.shown()
                + " exceeds device limit "@
                + maximum.shown(),
            GpuDocumentTargetError::ResidentCloneSourceMismatch { slot, expected, actual } => "resident clone source mismatch: slot "@
                + slot.shown()
                + ", expected "@
                + expected.shown()
                + ", actual "@
                + actual.shown(),
        }
    }

    fn show(&self) -> (text: String) {
        match self {
            GpuDocumentTargetError::PageExceedsDeviceLimit { requested, maximum } => Message::of("GPU document page size ")
                .with(requested)
                .and(" exceeds device limit ")
                .with(maximum)
                .finish(),
            GpuDocumentTargetError::Float32BlendingUnavailable => Message::of("Rgba32Float document blending is unavailable")
                .finish(),
            GpuDocumentTargetError::TargetIdentityOverflow => Message::of("GPU target identity overflows")
                .finish(),
            GpuDocumentTargetError::TargetTokenMismatch { expected, actual } => Message::of("GPU token belongs to target ")
                .with(&actual.get())
                .and(", not target ")
                .with(&expected.get())
                .finish(),
            GpuDocumentTargetError::LayoutMismatch { expected, actual } => Message::of("GPU document layout mismatch: expected ")
                .with(expected)
                .and(", got ")
                .with(actual)
                .finish(),
            GpuDocumentTargetError::UnsupportedAccumulation => Message::of("GPU color commit currently requires full flow")
                .finish(),
            GpuDocumentTargetError::MaskStrokeStillActive => Message::of("the round mask stroke must end before color commit")
                .finish(),
            GpuDocumentTargetError::MaskBatchAwaitingSubmission => Message::of("the round mask batch is awaiting submission")
                .finish(),
            GpuDocumentTargetError::CommitAwaitingSubmission => Message::of("a GPU document commit is awaiting submission")
                .finish(),
            GpuDocumentTargetError::CommitTokenMismatch => Message::of("GPU document commit token does not match")
                .finish(),
            GpuDocumentTargetError::MementoCommitTokenRequired => Message::of("GPU document commit requires its memento token")
                .finish(),
            GpuDocumentTargetError::CommitSerialOverflow => Message::of("GPU commit serial overflows")
                .finish(),
            GpuDocumentTargetError::NoEncodedCommit => Message::of("no GPU document commit is pending")
                .finish(),
            GpuDocumentTargetError::UndoPlan(value) => value.show(),
            GpuDocumentTargetError::UndoResource(value) => value.show(),
            GpuDocumentTargetError::UndoSwapAwaitingSubmission => Message::of("a GPU undo swap is awaiting submission")
                .finish(),
            GpuDocumentTargetError::NoEncodedUndoSwap => Message::of("no GPU undo swap is pending")
                .finish(),
            GpuDocumentTargetError::UndoSwapTokenMismatch => Message::of("GPU undo swap token does not match")
                .finish(),
            GpuDocumentTargetError::UndoSwapSerialOverflow => Message::of("GPU undo swap serial overflows")
                .finish(),
            GpuDocumentTargetError::UndoResidentMismatch { slot, expected, actual } => Message::of("GPU undo slot ")
                .with(slot)
                .and(" expected resident ")
                .with(expected)
                .and(", found ")
                .with(actual)
                .finish(),
            GpuDocumentTargetError::MissingMaskPage(value) => Message::of("round mask page ")
                .with(&value.get())
                .and(" does not exist")
                .finish(),
            GpuDocumentTargetError::MissingColorPage(value) => Message::of("GPU color page ")
                .with(&value.get())
                .and(" does not exist")
                .finish(),
            GpuDocumentTargetError::PageOutOfRange { page, maximum_pages } => Message::of("GPU document page ")
                .with(page)
                .and(" exceeds the ")
                .with(maximum_pages)
                .and("-page layout")
                .finish(),
            GpuDocumentTargetError::InstanceCountOverflow => Message::of("GPU commit instance count overflows")
                .finish(),
            GpuDocumentTargetError::InstanceBufferOverflow => Message::of("GPU commit buffer size overflows")
                .finish(),
            GpuDocumentTargetError::InstanceBufferTooLarge { requested, maximum } => Message::of("GPU commit instance buffer ")
                .with(requested)
                .and(" exceeds device limit ")
                .with(maximum)
                .finish(),
            GpuDocumentTargetError::UndoCopySizeOverflow => Message::of("GPU undo copy size overflows")
                .finish(),
            GpuDocumentTargetError::UndoScratchTooLarge { requested, maximum } => Message::of("GPU undo scratch buffer ")
                .with(requested)
                .and(" exceeds device limit ")
                .with(maximum)
                .finish(),
            GpuDocumentTargetError::ResidentCloneSourceMismatch { slot, expected, actual } => Message::of("resident clone source mismatch: slot ")
                .with(slot)
                .and(", expected ")
                .with(expected)
                .and(", actual ")
                .with(actual)
                .finish(),
        }
    }
}

impl GpuDocumentTargetError {
    pub fn message(&self) -> (text: String)
        ensures
            text@ == self.shown(),
    {
        self.show()
    }
}

impl Shown for GpuUndoPlanError {
    open spec fn shown(&self) -> Seq<char> {
        match self {
            GpuUndoPlanError::TileSizeNotBlockAligned { tile_size, block_size } => "GPU undo tile size "@
                + tile_size.shown()
                + " is not aligned to "@
                + block_size.shown()
                + "-pixel blocks"@,
            GpuUndoPlanError::BlockRowNotCopyAligned => "one GPU undo block row is not copy aligned"@,
            GpuUndoPlanError::DamageOutsideTile { key, damage, tile_size } => "GPU undo damage "@
                + damage.shown()
                + " for "@
                + key.shown()
                + " exceeds its "@
                + tile_size.shown()
                + "-pixel tile"@,
            GpuUndoPlanError::ConflictingSlotOccupants { slot, first, second } => "GPU undo slot "@
                + slot.shown()
                + " names conflicting occupants "@
                + first.shown()
                + " and "@
                + second.shown(),
            GpuUndoPlanError::ArithmeticOverflow => "GPU undo plan size overflows"@,
        }
    }

    fn show(&self) -> (text: String) {
        match self {
            GpuUndoPlanError::TileSizeNotBlockAligned { tile_size, block_size } => Message::of("GPU undo tile size ")
                .with(tile_size)
                .and(" is not aligned to ")
                .with(block_size)
                .and("-pixel blocks")
                .finish(),
            GpuUndoPlanError::BlockRowNotCopyAligned => Message::of("one GPU undo block row is not copy aligned")
                .finish(),
            GpuUndoPlanError::DamageOutsideTile { key, damage, tile_size } => Message::of("GPU undo damage ")
                .with(damage)
                .and(" for ")
                .with(key)
                .and(" exceeds its ")
                .with(tile_size)
                .and("-pixel tile")
                .finish(),
            GpuUndoPlanError::ConflictingSlotOccupants { slot, first, second } => Message::of("GPU undo slot ")
                .with(slot)
                .and(" names conflicting occupants ")
                .with(first)
                .and(" and ")
                .with(second)
                .finish(),
            GpuUndoPlanError::ArithmeticOverflow => Message::of("GPU undo plan size overflows")
                .finish(),
        }
    }
}

impl GpuUndoPlanError {
    pub fn message(&self) -> (text: String)
        ensures
            text@ == self.shown(),
    {
        self.show()
    }
}

impl Shown for GpuUndoResourceError {
    open spec fn shown(&self) -> Seq<char> {
        match self {
            GpuUndoResourceError::EmptyCapture => "GPU undo capture is empty"@,
            GpuUndoResourceError::BufferTooLarge { requested, maximum } => "GPU undo buffer "@
                + requested.shown()
                + " exceeds device limit "@
                + maximum.shown(),
        }
    }

    fn show(&self) -> (text: String) {
        match self {
            GpuUndoResourceError::EmptyCapture => Message::of("GPU undo capture is empty").finish(),
            GpuUndoResourceError::BufferTooLarge { requested, maximum } => Message::of("GPU undo buffer ")
                .with(requested)
                .and(" exceeds device limit ")
                .with(maximum)
                .finish(),
        }
    }
}

impl GpuUndoResourceError {
    pub fn message(&self) -> (text: String)
        ensures
            text@ == self.shown(),
    {
        self.show()
    }
}

impl Shown for GpuHistoryRecoveryError {
    open spec fn shown(&self) -> Seq<char> {
        match self {
            GpuHistoryRecoveryError::InvalidEntryLimit => "GPU history recovery entry limit must be nonzero"@,
            GpuHistoryRecoveryError::InvalidByteLimit => "GPU history recovery byte limit must be nonzero"@,
            GpuHistoryRecoveryError::NonConsecutiveRevision { source, target } => "GPU history recovery revision "@
                + target.0.shown()
                + " does not immediately follow "@
                + source.0.shown(),
            GpuHistoryRecoveryError::DuplicateHistoryId { id, revision } => "GPU history ID "@
                + id.0.shown()
                + " is already registered for revision "@
                + revision.0.shown(),
            GpuHistoryRecoveryError::DuplicateRevision { revision, registered_id } => "GPU history recovery revision "@
                + revision.0.shown()
                + " is already registered to history ID "@
                + registered_id.0.shown(),
            GpuHistoryRecoveryError::EntryLimitExhausted { resident, maximum } => "GPU history recovery has "@
                + resident.shown()
                + " entries and cannot exceed "@
                + maximum.shown(),
            GpuHistoryRecoveryError::UntrackedHistoryId(value) => "GPU history ID "@
                + value.0.shown()
                + " has no recovery spill"@,
            GpuHistoryRecoveryError::UntrackedRevision(value) => "GPU history recovery revision "@
                + value.0.shown()
                + " is not registered"@,
            GpuHistoryRecoveryError::SourceRevisionMismatch { id, expected, actual } => "GPU history ID "@
                + id.0.shown()
                + " expected recovery source revision "@
                + expected.0.shown()
                + ", got "@
                + actual.0.shown(),
            GpuHistoryRecoveryError::TransitionAlreadyAttached { id, revision } => "GPU history ID "@
                + id.0.shown()
                + " already has recovery revision "@
                + revision.0.shown(),
            GpuHistoryRecoveryError::TransitionPending { id, revision } => "GPU history ID "@
                + id.0.shown()
                + " is still waiting for recovery revision "@
                + revision.0.shown(),
            GpuHistoryRecoveryError::TransitionExceedsByteLimit { requested, maximum } => "GPU history recovery transition needs "@
                + requested.shown()
                + " bytes but the limit is "@
                + maximum.shown(),
            GpuHistoryRecoveryError::ByteLimitExhausted { resident, requested, maximum } => "GPU history recovery has "@
                + resident.shown()
                + " bytes and cannot add "@
                + requested.shown()
                + " within "@
                + maximum.shown(),
            GpuHistoryRecoveryError::ByteCountOverflow => "GPU history recovery bytes overflow"@,
        }
    }

    fn show(&self) -> (text: String) {
        match self {
            GpuHistoryRecoveryError::InvalidEntryLimit => Message::of("GPU history recovery entry limit must be nonzero")
                .finish(),
            GpuHistoryRecoveryError::InvalidByteLimit => Message::of("GPU history recovery byte limit must be nonzero")
                .finish(),
            GpuHistoryRecoveryError::NonConsecutiveRevision { source, target } => Message::of("GPU history recovery revision ")
                .with(&target.get())
                .and(" does not immediately follow ")
                .with(&source.get())
                .finish(),
            GpuHistoryRecoveryError::DuplicateHistoryId { id, revision } => Message::of("GPU history ID ")
                .with(&id.get())
                .and(" is already registered for revision ")
                .with(&revision.get())
                .finish(),
            GpuHistoryRecoveryError::DuplicateRevision { revision, registered_id } => Message::of("GPU history recovery revision ")
                .with(&revision.get())
                .and(" is already registered to history ID ")
                .with(&registered_id.get())
                .finish(),
            GpuHistoryRecoveryError::EntryLimitExhausted { resident, maximum } => Message::of("GPU history recovery has ")
                .with(resident)
                .and(" entries and cannot exceed ")
                .with(maximum)
                .finish(),
            GpuHistoryRecoveryError::UntrackedHistoryId(value) => Message::of("GPU history ID ")
                .with(&value.get())
                .and(" has no recovery spill")
                .finish(),
            GpuHistoryRecoveryError::UntrackedRevision(value) => Message::of("GPU history recovery revision ")
                .with(&value.get())
                .and(" is not registered")
                .finish(),
            GpuHistoryRecoveryError::SourceRevisionMismatch { id, expected, actual } => Message::of("GPU history ID ")
                .with(&id.get())
                .and(" expected recovery source revision ")
                .with(&expected.get())
                .and(", got ")
                .with(&actual.get())
                .finish(),
            GpuHistoryRecoveryError::TransitionAlreadyAttached { id, revision } => Message::of("GPU history ID ")
                .with(&id.get())
                .and(" already has recovery revision ")
                .with(&revision.get())
                .finish(),
            GpuHistoryRecoveryError::TransitionPending { id, revision } => Message::of("GPU history ID ")
                .with(&id.get())
                .and(" is still waiting for recovery revision ")
                .with(&revision.get())
                .finish(),
            GpuHistoryRecoveryError::TransitionExceedsByteLimit { requested, maximum } => Message::of("GPU history recovery transition needs ")
                .with(requested)
                .and(" bytes but the limit is ")
                .with(maximum)
                .finish(),
            GpuHistoryRecoveryError::ByteLimitExhausted { resident, requested, maximum } => Message::of("GPU history recovery has ")
                .with(resident)
                .and(" bytes and cannot add ")
                .with(requested)
                .and(" within ")
                .with(maximum)
                .finish(),
            GpuHistoryRecoveryError::ByteCountOverflow => Message::of("GPU history recovery bytes overflow")
                .finish(),
        }
    }
}

impl GpuHistoryRecoveryError {
    pub fn message(&self) -> (text: String)
        ensures
            text@ == self.shown(),
    {
        self.show()
    }
}

impl Shown for GpuExactLayerRecoveryBuildError {
    open spec fn shown(&self) -> Seq<char> {
        match self {
            GpuExactLayerRecoveryBuildError::GestureActive => "cannot capture a GPU recovery layer mid-gesture"@,
            GpuExactLayerRecoveryBuildError::NonFinitePixel { tile, index } => "GPU exact layer recovery tile "@
                + tile.shown()
                + " has a non-finite pixel at index "@
                + index.shown(),
            GpuExactLayerRecoveryBuildError::ByteCountOverflow => "GPU exact layer recovery byte count overflows"@,
        }
    }

    fn show(&self) -> (text: String) {
        match self {
            GpuExactLayerRecoveryBuildError::GestureActive => Message::of("cannot capture a GPU recovery layer mid-gesture")
                .finish(),
            GpuExactLayerRecoveryBuildError::NonFinitePixel { tile, index } => Message::of("GPU exact layer recovery tile ")
                .with(tile)
                .and(" has a non-finite pixel at index ")
                .with(index)
                .finish(),
            GpuExactLayerRecoveryBuildError::ByteCountOverflow => Message::of("GPU exact layer recovery byte count overflows")
                .finish(),
        }
    }
}

impl GpuExactLayerRecoveryBuildError {
    pub fn message(&self) -> (text: String)
        ensures
            text@ == self.shown(),
    {
        self.show()
    }
}

impl Shown for GpuExactLayerRecoveryReplayError {
    open spec fn shown(&self) -> Seq<char> {
        match self {
            GpuExactLayerRecoveryReplayError::LayerMismatch { expected, actual } => "GPU exact layer recovery targets layer "@
                + expected.0.shown()
                + ", not layer "@
                + actual.0.shown(),
            GpuExactLayerRecoveryReplayError::GeometryMismatch {
                expected_dimensions,
                actual_dimensions,
                expected_tile_size,
                actual_tile_size,
            } => "GPU exact layer recovery geometry "@
                + expected_dimensions[0].shown()
                + "x"@
                + expected_dimensions[1].shown()
                + " / tile "@
                + expected_tile_size.shown()
                + " does not match "@
                + actual_dimensions[0].shown()
                + "x"@
                + actual_dimensions[1].shown()
                + " / tile "@
                + actual_tile_size.shown(),
            GpuExactLayerRecoveryReplayError::TileCountOverflow => "GPU exact layer recovery tile count overflows u32"@,
            GpuExactLayerRecoveryReplayError::Raster(value) => value.shown(),
        }
    }

    fn show(&self) -> (text: String) {
        match self {
            GpuExactLayerRecoveryReplayError::LayerMismatch { expected, actual } => Message::of("GPU exact layer recovery targets layer ")
                .with(&expected.get())
                .and(", not layer ")
                .with(&actual.get())
                .finish(),
            GpuExactLayerRecoveryReplayError::GeometryMismatch {
                expected_dimensions,
                actual_dimensions,
                expected_tile_size,
                actual_tile_size,
            } => Message::of("GPU exact layer recovery geometry ")
                .with(&expected_dimensions[0])
                .and("x")
                .with(&expected_dimensions[1])
                .and(" / tile ")
                .with(expected_tile_size)
                .and(" does not match ")
                .with(&actual_dimensions[0])
                .and("x")
                .with(&actual_dimensions[1])
                .and(" / tile ")
                .with(actual_tile_size)
                .finish(),
            GpuExactLayerRecoveryReplayError::TileCountOverflow => Message::of("GPU exact layer recovery tile count overflows u32")
                .finish(),
            GpuExactLayerRecoveryReplayError::Raster(value) => value.show(),
        }
    }
}

impl GpuExactLayerRecoveryReplayError {
    pub fn message(&self) -> (text: String)
        ensures
            text@ == self.shown(),
    {
        self.show()
    }
}

impl Shown for GpuLiveRecoveryError {
    open spec fn shown(&self) -> Seq<char> {
        match self {
            GpuLiveRecoveryError::Journal(value) => value.shown(),
            GpuLiveRecoveryError::Spills(value) => value.shown(),
            GpuLiveRecoveryError::Timeline(value) => value.shown(),
            GpuLiveRecoveryError::PreparedSourceChanged { prepared, actual } => "prepared GPU recovery source revision "@
                + prepared.0.shown()
                + " changed to "@
                + actual.0.shown(),
            GpuLiveRecoveryError::MirrorRevisionMismatch { snapshot, transition } => "GPU mirror snapshot revision "@
                + snapshot.0.shown()
                + " does not match transition "@
                + transition.0.shown(),
            GpuLiveRecoveryError::MirrorSourceMismatch { base, transition } => "GPU mirror transition starts at revision "@
                + transition.0.shown()
                + ", not recovery base "@
                + base.0.shown(),
            GpuLiveRecoveryError::HistorySpillMismatch { revision, expected, actual } => "GPU mirror revision "@
                + revision.0.shown()
                + " expected history spill "@
                + expected.0.shown()
                + ", got "@
                + raw_id(*actual).shown(),
            GpuLiveRecoveryError::HistorySpillWouldBeDiscarded { revision, id } => "GPU mirror revision "@
                + revision.0.shown()
                + " still belongs to history spill "@
                + id.0.shown(),
        }
    }

    fn show(&self) -> (text: String) {
        match self {
            GpuLiveRecoveryError::Journal(value) => value.show(),
            GpuLiveRecoveryError::Spills(value) => value.show(),
            GpuLiveRecoveryError::Timeline(value) => value.show(),
            GpuLiveRecoveryError::PreparedSourceChanged { prepared, actual } => Message::of("prepared GPU recovery source revision ")
                .with(&prepared.get())
                .and(" changed to ")
                .with(&actual.get())
                .finish(),
            GpuLiveRecoveryError::MirrorRevisionMismatch { snapshot, transition } => Message::of("GPU mirror snapshot revision ")
                .with(&snapshot.get())
                .and(" does not match transition ")
                .with(&transition.get())
                .finish(),
            GpuLiveRecoveryError::MirrorSourceMismatch { base, transition } => Message::of("GPU mirror transition starts at revision ")
                .with(&transition.get())
                .and(", not recovery base ")
                .with(&base.get())
                .finish(),
            GpuLiveRecoveryError::HistorySpillMismatch { revision, expected, actual } => Message::of("GPU mirror revision ")
                .with(&revision.get())
                .and(" expected history spill ")
                .with(&expected.get())
                .and(", got ")
                .with(&id_number(*actual))
                .finish(),
            GpuLiveRecoveryError::HistorySpillWouldBeDiscarded { revision, id } => Message::of("GPU mirror revision ")
                .with(&revision.get())
                .and(" still belongs to history spill ")
                .with(&id.get())
                .finish(),
        }
    }
}

impl GpuLiveRecoveryError {
    pub fn message(&self) -> (text: String)
        ensures
            text@ == self.shown(),
    {
        self.show()
    }
}

impl Shown for GpuExactRasterRecoveryMirrorError {
    open spec fn shown(&self) -> Seq<char> {
        match self {
            GpuExactRasterRecoveryMirrorError::BatchCountMismatch { expected, actual } => "GPU raster recovery has "@
                + actual.shown()
                + " mapped batches, expected "@
                + expected.shown(),
            GpuExactRasterRecoveryMirrorError::RevisionMismatch { expected, actual } => "GPU raster recovery batch revision "@
                + actual.0.shown()
                + " does not match "@
                + expected.0.shown(),
            GpuExactRasterRecoveryMirrorError::BatchIndexOutOfRange { index, count } => "GPU raster recovery batch "@
                + index.shown()
                + " lies outside "@
                + count.shown()
                + " batches"@,
            GpuExactRasterRecoveryMirrorError::DuplicateBatch(value) => "GPU raster recovery batch "@
                + value.shown()
                + " is duplicated"@,
            GpuExactRasterRecoveryMirrorError::BatchByteMismatch { index, expected, actual } => "GPU raster recovery batch "@
                + index.shown()
                + " has "@
                + actual.shown()
                + " bytes, expected "@
                + expected.shown(),
            GpuExactRasterRecoveryMirrorError::BatchShapeMismatch(value) => "GPU raster recovery batch "@
                + value.shown()
                + " shape differs from its plan"@,
            GpuExactRasterRecoveryMirrorError::Command(value) => value.shown(),
        }
    }

    fn show(&self) -> (text: String) {
        match self {
            GpuExactRasterRecoveryMirrorError::BatchCountMismatch { expected, actual } => Message::of("GPU raster recovery has ")
                .with(actual)
                .and(" mapped batches, expected ")
                .with(expected)
                .finish(),
            GpuExactRasterRecoveryMirrorError::RevisionMismatch { expected, actual } => Message::of("GPU raster recovery batch revision ")
                .with(&actual.get())
                .and(" does not match ")
                .with(&expected.get())
                .finish(),
            GpuExactRasterRecoveryMirrorError::BatchIndexOutOfRange { index, count } => Message::of("GPU raster recovery batch ")
                .with(index)
                .and(" lies outside ")
                .with(count)
                .and(" batches")
                .finish(),
            GpuExactRasterRecoveryMirrorError::DuplicateBatch(value) => Message::of("GPU raster recovery batch ")
                .with(value)
                .and(" is duplicated")
                .finish(),
            GpuExactRasterRecoveryMirrorError::BatchByteMismatch { index, expected, actual } => Message::of("GPU raster recovery batch ")
                .with(index)
                .and(" has ")
                .with(actual)
                .and(" bytes, expected ")
                .with(expected)
                .finish(),
            GpuExactRasterRecoveryMirrorError::BatchShapeMismatch(value) => Message::of("GPU raster recovery batch ")
                .with(value)
                .and(" shape differs from its plan")
                .finish(),
            GpuExactRasterRecoveryMirrorError::Command(value) => value.show(),
        }
    }
}

impl GpuExactRasterRecoveryMirrorError {
    pub fn message(&self) -> (text: String)
        ensures
            text@ == self.shown(),
    {
        self.show()
    }
}

impl Shown for GpuExactRasterRecoveryBuildError {
    open spec fn shown(&self) -> Seq<char> {
        match self {
            GpuExactRasterRecoveryBuildError::InvalidTileSize => "GPU raster recovery tile size is zero"@,
            GpuExactRasterRecoveryBuildError::EmptyCommand => "GPU raster recovery command is empty"@,
            GpuExactRasterRecoveryBuildError::MixedLayers { first, second } => "GPU raster recovery command mixes layers "@
                + first.0.shown()
                + " and "@
                + second.0.shown(),
            GpuExactRasterRecoveryBuildError::RegionOutsideTile { tile, bounds, tile_size } => "GPU raster recovery region "@
                + bounds.shown()
                + " for tile ("@
                + tile.x.shown()
                + ", "@
                + tile.y.shown()
                + ") exceeds "@
                + tile_size.shown(),
            GpuExactRasterRecoveryBuildError::RegionNotBlockAligned {
                tile,
                bounds,
                block_size,
            } => "GPU raster recovery region "@
                + bounds.shown()
                + " for tile ("@
                + tile.x.shown()
                + ", "@
                + tile.y.shown()
                + ") is not aligned to "@
                + block_size.shown()
                + "-pixel blocks"@,
            GpuExactRasterRecoveryBuildError::PixelCountOverflow => "GPU raster recovery pixels overflow"@,
            GpuExactRasterRecoveryBuildError::InvalidPixelCount { tile, expected, actual } => "GPU raster recovery tile ("@
                + tile.x.shown()
                + ", "@
                + tile.y.shown()
                + ") has "@
                + actual.shown()
                + " pixels, expected "@
                + expected.shown(),
            GpuExactRasterRecoveryBuildError::NonFinitePixel { tile, index } => "GPU raster recovery tile ("@
                + tile.x.shown()
                + ", "@
                + tile.y.shown()
                + ") pixel "@
                + index.shown()
                + " is non-finite"@,
            GpuExactRasterRecoveryBuildError::ConflictingResidentState(value) => "GPU raster recovery tile ("@
                + value.x.shown()
                + ", "@
                + value.y.shown()
                + ") has conflicting resident states"@,
            GpuExactRasterRecoveryBuildError::OverlappingRegions(value) => "GPU raster recovery tile ("@
                + value.x.shown()
                + ", "@
                + value.y.shown()
                + ") has overlapping regions"@,
            GpuExactRasterRecoveryBuildError::ByteCountOverflow => "GPU raster recovery bytes overflow"@,
        }
    }

    fn show(&self) -> (text: String) {
        match self {
            GpuExactRasterRecoveryBuildError::InvalidTileSize => Message::of("GPU raster recovery tile size is zero")
                .finish(),
            GpuExactRasterRecoveryBuildError::EmptyCommand => Message::of("GPU raster recovery command is empty")
                .finish(),
            GpuExactRasterRecoveryBuildError::MixedLayers { first, second } => Message::of("GPU raster recovery command mixes layers ")
                .with(&first.get())
                .and(" and ")
                .with(&second.get())
                .finish(),
            GpuExactRasterRecoveryBuildError::RegionOutsideTile { tile, bounds, tile_size } => Message::of("GPU raster recovery region ")
                .with(bounds)
                .and(" for tile (")
                .with(&tile.x)
                .and(", ")
                .with(&tile.y)
                .and(") exceeds ")
                .with(tile_size)
                .finish(),
            GpuExactRasterRecoveryBuildError::RegionNotBlockAligned {
                tile,
                bounds,
                block_size,
            } => Message::of("GPU raster recovery region ")
                .with(bounds)
                .and(" for tile (")
                .with(&tile.x)
                .and(", ")
                .with(&tile.y)
                .and(") is not aligned to ")
                .with(block_size)
                .and("-pixel blocks")
                .finish(),
            GpuExactRasterRecoveryBuildError::PixelCountOverflow => Message::of("GPU raster recovery pixels overflow")
                .finish(),
            GpuExactRasterRecoveryBuildError::InvalidPixelCount { tile, expected, actual } => Message::of("GPU raster recovery tile (")
                .with(&tile.x)
                .and(", ")
                .with(&tile.y)
                .and(") has ")
                .with(actual)
                .and(" pixels, expected ")
                .with(expected)
                .finish(),
            GpuExactRasterRecoveryBuildError::NonFinitePixel { tile, index } => Message::of("GPU raster recovery tile (")
                .with(&tile.x)
                .and(", ")
                .with(&tile.y)
                .and(") pixel ")
                .with(index)
                .and(" is non-finite")
                .finish(),
            GpuExactRasterRecoveryBuildError::ConflictingResidentState(value) => Message::of("GPU raster recovery tile (")
                .with(&value.x)
                .and(", ")
                .with(&value.y)
                .and(") has conflicting resident states")
                .finish(),
            GpuExactRasterRecoveryBuildError::OverlappingRegions(value) => Message::of("GPU raster recovery tile (")
                .with(&value.x)
                .and(", ")
                .with(&value.y)
                .and(") has overlapping regions")
                .finish(),
            GpuExactRasterRecoveryBuildError::ByteCountOverflow => Message::of("GPU raster recovery bytes overflow")
                .finish(),
        }
    }
}

impl GpuExactRasterRecoveryBuildError {
    pub fn message(&self) -> (text: String)
        ensures
            text@ == self.shown(),
    {
        self.show()
    }
}

impl Shown for GpuExactRasterRecoveryReplayError {
    open spec fn shown(&self) -> Seq<char> {
        match self {
            GpuExactRasterRecoveryReplayError::LayerMismatch { expected, actual } => "GPU raster recovery layer "@
                + expected.0.shown()
                + " does not match target "@
                + actual.0.shown(),
            GpuExactRasterRecoveryReplayError::TileSizeMismatch { expected, actual } => "GPU raster recovery tile size "@
                + expected.shown()
                + " does not match target "@
                + actual.shown(),
            GpuExactRasterRecoveryReplayError::TileOutOfBounds(value) => "GPU raster recovery tile ("@
                + value.x.shown()
                + ", "@
                + value.y.shown()
                + ") lies outside the target"@,
        }
    }

    fn show(&self) -> (text: String) {
        match self {
            GpuExactRasterRecoveryReplayError::LayerMismatch { expected, actual } => Message::of("GPU raster recovery layer ")
                .with(&expected.get())
                .and(" does not match target ")
                .with(&actual.get())
                .finish(),
            GpuExactRasterRecoveryReplayError::TileSizeMismatch { expected, actual } => Message::of("GPU raster recovery tile size ")
                .with(expected)
                .and(" does not match target ")
                .with(actual)
                .finish(),
            GpuExactRasterRecoveryReplayError::TileOutOfBounds(value) => Message::of("GPU raster recovery tile (")
                .with(&value.x)
                .and(", ")
                .with(&value.y)
                .and(") lies outside the target")
                .finish(),
        }
    }
}

impl GpuExactRasterRecoveryReplayError {
    pub fn message(&self) -> (text: String)
        ensures
            text@ == self.shown(),
    {
        self.show()
    }
}

impl Shown for GpuRecoveryJournalError {
    open spec fn shown(&self) -> Seq<char> {
        match self {
            GpuRecoveryJournalError::InvalidEntryLimit => "GPU recovery journal entry limit is zero"@,
            GpuRecoveryJournalError::InvalidByteLimit => "GPU recovery journal byte limit is zero"@,
            GpuRecoveryJournalError::RevisionExhausted => "GPU recovery journal revision exhausted"@,
            GpuRecoveryJournalError::NonConsecutiveRevision { latest, requested } => "GPU recovery revision "@
                + requested.0.shown()
                + " does not immediately follow "@
                + latest.0.shown(),
            GpuRecoveryJournalError::EmptyCommand => "GPU recovery command has zero declared bytes"@,
            GpuRecoveryJournalError::EntryLimitExhausted { resident, maximum } => "GPU recovery journal has "@
                + resident.shown()
                + " entries and reached its "@
                + maximum.shown()
                + "-entry limit"@,
            GpuRecoveryJournalError::CommandExceedsByteLimit { requested, maximum } => "GPU recovery command needs "@
                + requested.shown()
                + " bytes but the journal limit is "@
                + maximum.shown(),
            GpuRecoveryJournalError::ByteLimitExhausted { resident, requested, maximum } => "GPU recovery journal has "@
                + resident.shown()
                + " bytes and cannot reserve "@
                + requested.shown()
                + " within "@
                + maximum.shown(),
            GpuRecoveryJournalError::ByteCountOverflow => "GPU recovery journal bytes overflow"@,
            GpuRecoveryJournalError::MirrorRevisionRegressed { mirrored, requested } => "GPU recovery mirror revision "@
                + requested.0.shown()
                + " cannot regress from "@
                + mirrored.0.shown(),
            GpuRecoveryJournalError::MirrorRevisionAhead { latest, requested } => "GPU recovery mirror revision "@
                + requested.0.shown()
                + " is newer than journal revision "@
                + latest.0.shown(),
            GpuRecoveryJournalError::UnknownMirrorRevision(value) => "GPU recovery mirror revision "@
                + value.0.shown()
                + " is not a journal boundary"@,
        }
    }

    fn show(&self) -> (text: String) {
        match self {
            GpuRecoveryJournalError::InvalidEntryLimit => Message::of("GPU recovery journal entry limit is zero")
                .finish(),
            GpuRecoveryJournalError::InvalidByteLimit => Message::of("GPU recovery journal byte limit is zero")
                .finish(),
            GpuRecoveryJournalError::RevisionExhausted => Message::of("GPU recovery journal revision exhausted")
                .finish(),
            GpuRecoveryJournalError::NonConsecutiveRevision { latest, requested } => Message::of("GPU recovery revision ")
                .with(&requested.get())
                .and(" does not immediately follow ")
                .with(&latest.get())
                .finish(),
            GpuRecoveryJournalError::EmptyCommand => Message::of("GPU recovery command has zero declared bytes")
                .finish(),
            GpuRecoveryJournalError::EntryLimitExhausted { resident, maximum } => Message::of("GPU recovery journal has ")
                .with(resident)
                .and(" entries and reached its ")
                .with(maximum)
                .and("-entry limit")
                .finish(),
            GpuRecoveryJournalError::CommandExceedsByteLimit { requested, maximum } => Message::of("GPU recovery command needs ")
                .with(requested)
                .and(" bytes but the journal limit is ")
                .with(maximum)
                .finish(),
            GpuRecoveryJournalError::ByteLimitExhausted { resident, requested, maximum } => Message::of("GPU recovery journal has ")
                .with(resident)
                .and(" bytes and cannot reserve ")
                .with(requested)
                .and(" within ")
                .with(maximum)
                .finish(),
            GpuRecoveryJournalError::ByteCountOverflow => Message::of("GPU recovery journal bytes overflow")
                .finish(),
            GpuRecoveryJournalError::MirrorRevisionRegressed { mirrored, requested } => Message::of("GPU recovery mirror revision ")
                .with(&requested.get())
                .and(" cannot regress from ")
                .with(&mirrored.get())
                .finish(),
            GpuRecoveryJournalError::MirrorRevisionAhead { latest, requested } => Message::of("GPU recovery mirror revision ")
                .with(&requested.get())
                .and(" is newer than journal revision ")
                .with(&latest.get())
                .finish(),
            GpuRecoveryJournalError::UnknownMirrorRevision(value) => Message::of("GPU recovery mirror revision ")
                .with(&value.get())
                .and(" is not a journal boundary")
                .finish(),
        }
    }
}

impl GpuRecoveryJournalError {
    pub fn message(&self) -> (text: String)
        ensures
            text@ == self.shown(),
    {
        self.show()
    }
}

impl Shown for GpuRasterRecoveryReplayError {
    open spec fn shown(&self) -> Seq<char> {
        match self {
            GpuRasterRecoveryReplayError::Raster(value) => value.shown(),
            GpuRasterRecoveryReplayError::Round(value) => value.shown(),
            GpuRasterRecoveryReplayError::Exact(value) => value.shown(),
            GpuRasterRecoveryReplayError::Layer(value) => value.shown(),
            GpuRasterRecoveryReplayError::AwaitingPixels(value) => "awaiting pixels: "@
                + value.shown(),
        }
    }

    fn show(&self) -> (text: String) {
        match self {
            GpuRasterRecoveryReplayError::Raster(value) => value.show(),
            GpuRasterRecoveryReplayError::Round(value) => value.show(),
            GpuRasterRecoveryReplayError::Exact(value) => value.show(),
            GpuRasterRecoveryReplayError::Layer(value) => value.show(),
            GpuRasterRecoveryReplayError::AwaitingPixels(value) => Message::of("awaiting pixels: ")
                .with(value)
                .finish(),
        }
    }
}

impl GpuRasterRecoveryReplayError {
    pub fn message(&self) -> (text: String)
        ensures
            text@ == self.shown(),
    {
        self.show()
    }
}

impl Shown for GpuRecoveryTimelineError {
    open spec fn shown(&self) -> Seq<char> {
        match self {
            GpuRecoveryTimelineError::GeometryMismatch {
                expected_dimensions,
                actual_dimensions,
                expected_tile_size,
                actual_tile_size,
            } => "GPU recovery base geometry "@
                + actual_dimensions[0].shown()
                + "x"@
                + actual_dimensions[1].shown()
                + " / tile "@
                + actual_tile_size.shown()
                + " does not match "@
                + expected_dimensions[0].shown()
                + "x"@
                + expected_dimensions[1].shown()
                + " / tile "@
                + expected_tile_size.shown(),
            GpuRecoveryTimelineError::BaseNotNewer { current, requested } => "GPU recovery base revision "@
                + requested.0.shown()
                + " is not newer than "@
                + current.0.shown(),
            GpuRecoveryTimelineError::Journal(value) => value.shown(),
        }
    }

    fn show(&self) -> (text: String) {
        match self {
            GpuRecoveryTimelineError::GeometryMismatch {
                expected_dimensions,
                actual_dimensions,
                expected_tile_size,
                actual_tile_size,
            } => Message::of("GPU recovery base geometry ")
                .with(&actual_dimensions[0])
                .and("x")
                .with(&actual_dimensions[1])
                .and(" / tile ")
                .with(actual_tile_size)
                .and(" does not match ")
                .with(&expected_dimensions[0])
                .and("x")
                .with(&expected_dimensions[1])
                .and(" / tile ")
                .with(expected_tile_size)
                .finish(),
            GpuRecoveryTimelineError::BaseNotNewer { current, requested } => Message::of("GPU recovery base revision ")
                .with(&requested.get())
                .and(" is not newer than ")
                .with(&current.get())
                .finish(),
            GpuRecoveryTimelineError::Journal(value) => value.show(),
        }
    }
}

impl GpuRecoveryTimelineError {
    pub fn message(&self) -> (text: String)
        ensures
            text@ == self.shown(),
    {
        self.show()
    }
}

impl Shown for BrushError {
    open spec fn shown(&self) -> Seq<char> {
        match self {
            BrushError::InvalidSample => "brush sample is not finite"@,
            BrushError::StrokeFinalized => "brush stroke is finished"@,
        }
    }

    fn show(&self) -> (text: String) {
        match self {
            BrushError::InvalidSample => Message::of("brush sample is not finite").finish(),
            BrushError::StrokeFinalized => Message::of("brush stroke is finished").finish(),
        }
    }
}

impl BrushError {
    pub fn message(&self) -> (text: String)
        ensures
            text@ == self.shown(),
    {
        self.show()
    }
}

impl Shown for ContinuousBladeError {
    open spec fn shown(&self) -> Seq<char> {
        match self {
            ContinuousBladeError::EmptyCanvas => "continuous blade canvas is empty"@,
            ContinuousBladeError::InvalidTileSize => "continuous blade tile size is zero"@,
            ContinuousBladeError::InvalidPose => "continuous blade generated an invalid pose"@,
            ContinuousBladeError::Brush(value) => value.shown(),
        }
    }

    fn show(&self) -> (text: String) {
        match self {
            ContinuousBladeError::EmptyCanvas => Message::of("continuous blade canvas is empty")
                .finish(),
            ContinuousBladeError::InvalidTileSize => Message::of("continuous blade tile size is zero")
                .finish(),
            ContinuousBladeError::InvalidPose => Message::of("continuous blade generated an invalid pose")
                .finish(),
            ContinuousBladeError::Brush(value) => value.show(),
        }
    }
}

impl ContinuousBladeError {
    pub fn message(&self) -> (text: String)
        ensures
            text@ == self.shown(),
    {
        self.show()
    }
}

impl Shown for ArchiveError {
    open spec fn shown(&self) -> Seq<char> {
        match self {
            ArchiveError::Full => "history archive is full"@,
            ArchiveError::Unavailable => "history archive is unavailable"@,
        }
    }

    fn show(&self) -> (text: String) {
        match self {
            ArchiveError::Full => Message::of("history archive is full").finish(),
            ArchiveError::Unavailable => Message::of("history archive is unavailable").finish(),
        }
    }
}

impl ArchiveError {
    pub fn message(&self) -> (text: String)
        ensures
            text@ == self.shown(),
    {
        self.show()
    }
}

impl Shown for GpuResidentDocumentError {
    open spec fn shown(&self) -> Seq<char> {
        match self {
            GpuResidentDocumentError::Archive(value) => value.shown(),
            GpuResidentDocumentError::RevisionExhausted => "GPU document revision space is exhausted"@,
            GpuResidentDocumentError::ImportedLayerGeometryMismatch => "imported raster geometry does not match the resident document"@,
            GpuResidentDocumentError::MirrorRevisionMismatch { metadata, mirror } => "document metadata revision "@
                + metadata.0.shown()
                + " does not match CPU mirror revision "@
                + mirror.0.shown(),
            GpuResidentDocumentError::MetadataTileSizeMismatch { metadata, atlas } => "document metadata tile size "@
                + metadata.shown()
                + " does not match atlas tile size "@
                + atlas.shown(),
            GpuResidentDocumentError::TargetMismatch { expected, actual } => "GPU resident document is bound to target "@
                + expected.0.shown()
                + ", not target "@
                + actual.0.shown(),
            GpuResidentDocumentError::TargetLayoutMismatch { expected, actual } => "GPU document target layout "@
                + actual.shown()
                + " does not match owner "@
                + expected.shown(),
            GpuResidentDocumentError::HistoryPreviewChanged => "GPU history changed after document commit preparation"@,
            GpuResidentDocumentError::HistorySwapChanged => "GPU history changed after swap preparation"@,
            GpuResidentDocumentError::MirrorHandoffPending(value) => "GPU mirror revision "@
                + value.0.shown()
                + " is waiting for recovery handoff"@,
            GpuResidentDocumentError::ActiveRoundStrokeIdExhausted => "GPU active round stroke identity space is exhausted"@,
            GpuResidentDocumentError::ActiveRoundStrokeMismatch { expected, actual } => "GPU active round stroke mismatch: expected "@
                + expected.shown()
                + ", found "@
                + actual.shown(),
            GpuResidentDocumentError::ActiveRoundStrokeLayerMismatch { expected, actual } => "GPU active round stroke layer "@
                + actual.shown()
                + " does not match "@
                + expected.shown(),
            GpuResidentDocumentError::ActiveRoundStrokeAllocationChanged {
                key,
                expected,
                actual,
            } => "GPU active round stroke allocation "@
                + key.shown()
                + " changed from "@
                + expected.shown()
                + " to "@
                + actual.shown(),
            GpuResidentDocumentError::RoundMask(value) => value.shown(),
            GpuResidentDocumentError::Atlas(value) => value.shown(),
            GpuResidentDocumentError::History(value) => value.shown(),
            GpuResidentDocumentError::HistoryRecord(value) => value.shown(),
            GpuResidentDocumentError::Target(value) => value.shown(),
            GpuResidentDocumentError::MirrorPlan(value) => value.shown(),
            GpuResidentDocumentError::MirrorReadback(value) => value.shown(),
            GpuResidentDocumentError::MirrorDispatch(value) => value.shown(),
            GpuResidentDocumentError::Recovery(value) => value.shown(),
            GpuResidentDocumentError::RecoveryReplay(value) => value.shown(),
            GpuResidentDocumentError::LayerRecoveryBuild(value) => value.shown(),
            GpuResidentDocumentError::Metadata(value) => value.shown(),
        }
    }

    fn show(&self) -> (text: String) {
        match self {
            GpuResidentDocumentError::Archive(value) => value.show(),
            GpuResidentDocumentError::RevisionExhausted => Message::of("GPU document revision space is exhausted")
                .finish(),
            GpuResidentDocumentError::ImportedLayerGeometryMismatch => Message::of("imported raster geometry does not match the resident document")
                .finish(),
            GpuResidentDocumentError::MirrorRevisionMismatch { metadata, mirror } => Message::of("document metadata revision ")
                .with(&metadata.get())
                .and(" does not match CPU mirror revision ")
                .with(&mirror.get())
                .finish(),
            GpuResidentDocumentError::MetadataTileSizeMismatch { metadata, atlas } => Message::of("document metadata tile size ")
                .with(metadata)
                .and(" does not match atlas tile size ")
                .with(atlas)
                .finish(),
            GpuResidentDocumentError::TargetMismatch { expected, actual } => Message::of("GPU resident document is bound to target ")
                .with(&expected.get())
                .and(", not target ")
                .with(&actual.get())
                .finish(),
            GpuResidentDocumentError::TargetLayoutMismatch { expected, actual } => Message::of("GPU document target layout ")
                .with(actual)
                .and(" does not match owner ")
                .with(expected)
                .finish(),
            GpuResidentDocumentError::HistoryPreviewChanged => Message::of("GPU history changed after document commit preparation")
                .finish(),
            GpuResidentDocumentError::HistorySwapChanged => Message::of("GPU history changed after swap preparation")
                .finish(),
            GpuResidentDocumentError::MirrorHandoffPending(value) => Message::of("GPU mirror revision ")
                .with(&value.get())
                .and(" is waiting for recovery handoff")
                .finish(),
            GpuResidentDocumentError::ActiveRoundStrokeIdExhausted => Message::of("GPU active round stroke identity space is exhausted")
                .finish(),
            GpuResidentDocumentError::ActiveRoundStrokeMismatch { expected, actual } => Message::of("GPU active round stroke mismatch: expected ")
                .with(expected)
                .and(", found ")
                .with(actual)
                .finish(),
            GpuResidentDocumentError::ActiveRoundStrokeLayerMismatch { expected, actual } => Message::of("GPU active round stroke layer ")
                .with(actual)
                .and(" does not match ")
                .with(expected)
                .finish(),
            GpuResidentDocumentError::ActiveRoundStrokeAllocationChanged {
                key,
                expected,
                actual,
            } => Message::of("GPU active round stroke allocation ")
                .with(key)
                .and(" changed from ")
                .with(expected)
                .and(" to ")
                .with(actual)
                .finish(),
            GpuResidentDocumentError::RoundMask(value) => value.show(),
            GpuResidentDocumentError::Atlas(value) => value.show(),
            GpuResidentDocumentError::History(value) => value.show(),
            GpuResidentDocumentError::HistoryRecord(value) => value.show(),
            GpuResidentDocumentError::Target(value) => value.show(),
            GpuResidentDocumentError::MirrorPlan(value) => value.show(),
            GpuResidentDocumentError::MirrorReadback(value) => value.show(),
            GpuResidentDocumentError::MirrorDispatch(value) => value.show(),
            GpuResidentDocumentError::Recovery(value) => value.show(),
            GpuResidentDocumentError::RecoveryReplay(value) => value.show(),
            GpuResidentDocumentError::LayerRecoveryBuild(value) => value.show(),
            GpuResidentDocumentError::Metadata(value) => value.show(),
        }
    }
}

impl GpuResidentDocumentError {
    pub fn message(&self) -> (text: String)
        ensures
            text@ == self.shown(),
    {
        self.show()
    }
}

impl Shown for GpuRevisionTaskError {
    open spec fn shown(&self) -> Seq<char> {
        match self {
            GpuRevisionTaskError::TaskIdExhausted => "GPU revision task IDs are exhausted"@,
            GpuRevisionTaskError::NoActiveTask => "no GPU revision task is active"@,
            GpuRevisionTaskError::ActiveTaskMismatch {
                expected_id,
                expected_revision,
                actual_id,
                actual_revision,
            } => "GPU revision task "@
                + actual_id.number().shown()
                + " / revision "@
                + actual_revision.0.shown()
                + " does not match active "@
                + expected_id.number().shown()
                + " / revision "@
                + expected_revision.0.shown(),
            GpuRevisionTaskError::InteractiveRevisionBehindTask { interactive, task } => "interactive revision "@
                + interactive.0.shown()
                + " is behind completed task revision "@
                + task.0.shown(),
        }
    }

    fn show(&self) -> (text: String) {
        match self {
            GpuRevisionTaskError::TaskIdExhausted => Message::of("GPU revision task IDs are exhausted")
                .finish(),
            GpuRevisionTaskError::NoActiveTask => Message::of("no GPU revision task is active")
                .finish(),
            GpuRevisionTaskError::ActiveTaskMismatch {
                expected_id,
                expected_revision,
                actual_id,
                actual_revision,
            } => Message::of("GPU revision task ")
                .with(&actual_id.get())
                .and(" / revision ")
                .with(&actual_revision.get())
                .and(" does not match active ")
                .with(&expected_id.get())
                .and(" / revision ")
                .with(&expected_revision.get())
                .finish(),
            GpuRevisionTaskError::InteractiveRevisionBehindTask { interactive, task } => Message::of("interactive revision ")
                .with(&interactive.get())
                .and(" is behind completed task revision ")
                .with(&task.get())
                .finish(),
        }
    }
}

impl GpuRevisionTaskError {
    pub fn message(&self) -> (text: String)
        ensures
            text@ == self.shown(),
    {
        self.show()
    }
}

impl Shown for RoundMaskError {
    open spec fn shown(&self) -> Seq<char> {
        match self {
            RoundMaskError::EmptyCanvas => "round mask canvas is empty"@,
            RoundMaskError::LayoutMismatch { expected, actual } => "round mask atlas layout mismatch: expected "@
                + expected.shown()
                + ", got "@
                + actual.shown(),
            RoundMaskError::Stroke(value) => value.shown(),
            RoundMaskError::Atlas(value) => value.shown(),
        }
    }

    fn show(&self) -> (text: String) {
        match self {
            RoundMaskError::EmptyCanvas => Message::of("round mask canvas is empty").finish(),
            RoundMaskError::LayoutMismatch { expected, actual } => Message::of("round mask atlas layout mismatch: expected ")
                .with(expected)
                .and(", got ")
                .with(actual)
                .finish(),
            RoundMaskError::Stroke(value) => value.show(),
            RoundMaskError::Atlas(value) => value.show(),
        }
    }
}

impl RoundMaskError {
    pub fn message(&self) -> (text: String)
        ensures
            text@ == self.shown(),
    {
        self.show()
    }
}

impl Shown for GpuRoundRecoveryReplayError {
    open spec fn shown(&self) -> Seq<char> {
        match self {
            GpuRoundRecoveryReplayError::Stroke(value) => value.shown(),
            GpuRoundRecoveryReplayError::Raster(value) => value.shown(),
        }
    }

    fn show(&self) -> (text: String) {
        match self {
            GpuRoundRecoveryReplayError::Stroke(value) => value.show(),
            GpuRoundRecoveryReplayError::Raster(value) => value.show(),
        }
    }
}

impl GpuRoundRecoveryReplayError {
    pub fn message(&self) -> (text: String)
        ensures
            text@ == self.shown(),
    {
        self.show()
    }
}

impl Shown for RoundMaskTargetError {
    open spec fn shown(&self) -> Seq<char> {
        match self {
            RoundMaskTargetError::PageExceedsDeviceLimit { requested, maximum } => "round mask page size "@
                + requested.shown()
                + " exceeds device limit "@
                + maximum.shown(),
            RoundMaskTargetError::Float32BlendingUnavailable => "R32Float mask blending is unavailable"@,
            RoundMaskTargetError::LayoutMismatch { expected, actual } => "round mask target layout mismatch: expected "@
                + expected.shown()
                + ", got "@
                + actual.shown(),
            RoundMaskTargetError::StrokeAlreadyActive => "a round mask stroke is already active"@,
            RoundMaskTargetError::StrokeNotActive => "no round mask stroke is active"@,
            RoundMaskTargetError::BatchAwaitingSubmission => "a round mask batch is awaiting submission"@,
            RoundMaskTargetError::NoEncodedBatch => "no encoded round mask batch is pending"@,
            RoundMaskTargetError::PageOutOfRange { page, maximum_pages } => "round mask page "@
                + page.shown()
                + " exceeds the "@
                + maximum_pages.shown()
                + "-page layout"@,
            RoundMaskTargetError::InstanceCountOverflow => "round mask instance count overflows"@,
            RoundMaskTargetError::InstanceBufferOverflow => "round mask buffer size overflows"@,
            RoundMaskTargetError::InstanceBufferTooLarge { requested, maximum } => "round mask instance buffer "@
                + requested.shown()
                + " exceeds device limit "@
                + maximum.shown(),
        }
    }

    fn show(&self) -> (text: String) {
        match self {
            RoundMaskTargetError::PageExceedsDeviceLimit { requested, maximum } => Message::of("round mask page size ")
                .with(requested)
                .and(" exceeds device limit ")
                .with(maximum)
                .finish(),
            RoundMaskTargetError::Float32BlendingUnavailable => Message::of("R32Float mask blending is unavailable")
                .finish(),
            RoundMaskTargetError::LayoutMismatch { expected, actual } => Message::of("round mask target layout mismatch: expected ")
                .with(expected)
                .and(", got ")
                .with(actual)
                .finish(),
            RoundMaskTargetError::StrokeAlreadyActive => Message::of("a round mask stroke is already active")
                .finish(),
            RoundMaskTargetError::StrokeNotActive => Message::of("no round mask stroke is active")
                .finish(),
            RoundMaskTargetError::BatchAwaitingSubmission => Message::of("a round mask batch is awaiting submission")
                .finish(),
            RoundMaskTargetError::NoEncodedBatch => Message::of("no encoded round mask batch is pending")
                .finish(),
            RoundMaskTargetError::PageOutOfRange { page, maximum_pages } => Message::of("round mask page ")
                .with(page)
                .and(" exceeds the ")
                .with(maximum_pages)
                .and("-page layout")
                .finish(),
            RoundMaskTargetError::InstanceCountOverflow => Message::of("round mask instance count overflows")
                .finish(),
            RoundMaskTargetError::InstanceBufferOverflow => Message::of("round mask buffer size overflows")
                .finish(),
            RoundMaskTargetError::InstanceBufferTooLarge { requested, maximum } => Message::of("round mask instance buffer ")
                .with(requested)
                .and(" exceeds device limit ")
                .with(maximum)
                .finish(),
        }
    }
}

impl RoundMaskTargetError {
    pub fn message(&self) -> (text: String)
        ensures
            text@ == self.shown(),
    {
        self.show()
    }
}

impl GpuRoundRecoveryBuildError {
    /// The message. `number` is the text of the fraction or color that the error holds, if it
    /// holds one.
    pub open spec fn shown_with(&self, number: Seq<char>) -> Seq<char> {
        match self {
            GpuRoundRecoveryBuildError::EmptyPath => "GPU round recovery path is empty"@,
            GpuRoundRecoveryBuildError::NoEffect => "GPU round recovery stroke has no effect"@,
            GpuRoundRecoveryBuildError::UnsupportedFlow(_) => "GPU round recovery currently requires full flow, got "@
                + number,
            GpuRoundRecoveryBuildError::IncompletePath => "GPU round recovery path is incomplete"@,
            GpuRoundRecoveryBuildError::TimestampMovedBackward => "GPU round recovery timestamp moved backward"@,
            GpuRoundRecoveryBuildError::ByteCountOverflow => "GPU round recovery bytes overflow"@,
            GpuRoundRecoveryBuildError::Stroke(value) => value.shown(),
        }
    }

    pub fn message(&self, number: &str) -> (text: String)
        ensures
            text@ == self.shown_with(number@),
    {
        match self {
            GpuRoundRecoveryBuildError::EmptyPath => Message::of("GPU round recovery path is empty")
                .finish(),
            GpuRoundRecoveryBuildError::NoEffect => Message::of("GPU round recovery stroke has no effect")
                .finish(),
            GpuRoundRecoveryBuildError::UnsupportedFlow(_) => Message::of("GPU round recovery currently requires full flow, got ")
                .and(number)
                .finish(),
            GpuRoundRecoveryBuildError::IncompletePath => Message::of("GPU round recovery path is incomplete")
                .finish(),
            GpuRoundRecoveryBuildError::TimestampMovedBackward => Message::of("GPU round recovery timestamp moved backward")
                .finish(),
            GpuRoundRecoveryBuildError::ByteCountOverflow => Message::of("GPU round recovery bytes overflow")
                .finish(),
            GpuRoundRecoveryBuildError::Stroke(value) => value.show(),
        }
    }
}

impl GpuResidentRoundStrokeError {
    /// The message. `number` is the text of the fraction or color that the error holds, if it
    /// holds one.
    pub open spec fn shown_with(&self, number: Seq<char>) -> Seq<char> {
        match self {
            GpuResidentRoundStrokeError::StrokeAlreadyActive => "a GPU round stroke is already active"@,
            GpuResidentRoundStrokeError::NoActiveStroke => "no GPU round stroke is active"@,
            GpuResidentRoundStrokeError::NoEffect => "the GPU round stroke has no effect"@,
            GpuResidentRoundStrokeError::UnsupportedFlow(_) => "GPU round strokes currently require full flow, got "@
                + number,
            GpuResidentRoundStrokeError::InvalidPaintLoad(_) => "paint load must be finite, got "@
                + number,
            GpuResidentRoundStrokeError::PathStillActive => "the GPU round path has not received its end command"@,
            GpuResidentRoundStrokeError::MaskBatchAwaitingSubmission => "the GPU round mask has an unacknowledged batch"@,
            GpuResidentRoundStrokeError::TargetBusy => "the GPU document target is busy"@,
            GpuResidentRoundStrokeError::TargetMismatch { expected, actual } => "GPU round stroke target "@
                + actual.0.shown()
                + " does not match "@
                + expected.0.shown(),
            GpuResidentRoundStrokeError::LayoutMismatch => "GPU round stroke layout does not match"@,
            GpuResidentRoundStrokeError::Round(value) => value.shown(),
            GpuResidentRoundStrokeError::Mask(value) => value.shown(),
            GpuResidentRoundStrokeError::Target(value) => value.shown(),
            GpuResidentRoundStrokeError::Resident(value) => value.shown(),
            GpuResidentRoundStrokeError::Recovery(value) => value.shown_with(number),
        }
    }

    pub fn message(&self, number: &str) -> (text: String)
        ensures
            text@ == self.shown_with(number@),
    {
        match self {
            GpuResidentRoundStrokeError::StrokeAlreadyActive => Message::of("a GPU round stroke is already active")
                .finish(),
            GpuResidentRoundStrokeError::NoActiveStroke => Message::of("no GPU round stroke is active")
                .finish(),
            GpuResidentRoundStrokeError::NoEffect => Message::of("the GPU round stroke has no effect")
                .finish(),
            GpuResidentRoundStrokeError::UnsupportedFlow(_) => Message::of("GPU round strokes currently require full flow, got ")
                .and(number)
                .finish(),
            GpuResidentRoundStrokeError::InvalidPaintLoad(_) => Message::of("paint load must be finite, got ")
                .and(number)
                .finish(),
            GpuResidentRoundStrokeError::PathStillActive => Message::of("the GPU round path has not received its end command")
                .finish(),
            GpuResidentRoundStrokeError::MaskBatchAwaitingSubmission => Message::of("the GPU round mask has an unacknowledged batch")
                .finish(),
            GpuResidentRoundStrokeError::TargetBusy => Message::of("the GPU document target is busy")
                .finish(),
            GpuResidentRoundStrokeError::TargetMismatch { expected, actual } => Message::of("GPU round stroke target ")
                .with(&actual.get())
                .and(" does not match ")
                .with(&expected.get())
                .finish(),
            GpuResidentRoundStrokeError::LayoutMismatch => Message::of("GPU round stroke layout does not match")
                .finish(),
            GpuResidentRoundStrokeError::Round(value) => value.show(),
            GpuResidentRoundStrokeError::Mask(value) => value.show(),
            GpuResidentRoundStrokeError::Target(value) => value.show(),
            GpuResidentRoundStrokeError::Resident(value) => value.show(),
            GpuResidentRoundStrokeError::Recovery(value) => value.message(number),
        }
    }
}

impl GpuStrokeCommitError {
    /// The message. `number` is the text of the fraction or color that the error holds, if it
    /// holds one.
    pub open spec fn shown_with(&self, number: Seq<char>) -> Seq<char> {
        match self {
            GpuStrokeCommitError::InvalidBrushDiameter(_) => "invalid GPU stroke brush diameter "@
                + number,
            GpuStrokeCommitError::TilePixelCountOverflow => "GPU stroke tile pixel count overflows usize"@,
            GpuStrokeCommitError::DuplicateTile(value) => "GPU stroke contains duplicate tile ("@
                + value.x.shown()
                + ", "@
                + value.y.shown()
                + ")"@,
            GpuStrokeCommitError::InvalidTilePixelCount { tile, expected, actual } => "GPU stroke tile ("@
                + tile.x.shown()
                + ", "@
                + tile.y.shown()
                + ") has "@
                + actual.shown()
                + " pixels, expected "@
                + expected.shown(),
            GpuStrokeCommitError::InvalidPixel { tile, index, .. } => "GPU stroke tile ("@
                + tile.x.shown()
                + ", "@
                + tile.y.shown()
                + ") has invalid pixel "@
                + number
                + " at index "@
                + index.shown(),
            GpuStrokeCommitError::Raster(value) => value.shown(),
        }
    }

    pub fn message(&self, number: &str) -> (text: String)
        ensures
            text@ == self.shown_with(number@),
    {
        match self {
            GpuStrokeCommitError::InvalidBrushDiameter(_) => Message::of("invalid GPU stroke brush diameter ")
                .and(number)
                .finish(),
            GpuStrokeCommitError::TilePixelCountOverflow => Message::of("GPU stroke tile pixel count overflows usize")
                .finish(),
            GpuStrokeCommitError::DuplicateTile(value) => Message::of("GPU stroke contains duplicate tile (")
                .with(&value.x)
                .and(", ")
                .with(&value.y)
                .and(")")
                .finish(),
            GpuStrokeCommitError::InvalidTilePixelCount { tile, expected, actual } => Message::of("GPU stroke tile (")
                .with(&tile.x)
                .and(", ")
                .with(&tile.y)
                .and(") has ")
                .with(actual)
                .and(" pixels, expected ")
                .with(expected)
                .finish(),
            GpuStrokeCommitError::InvalidPixel { tile, index, .. } => Message::of("GPU stroke tile (")
                .with(&tile.x)
                .and(", ")
                .with(&tile.y)
                .and(") has invalid pixel ")
                .and(number)
                .and(" at index ")
                .with(index)
                .finish(),
            GpuStrokeCommitError::Raster(value) => value.show(),
        }
    }
}

impl StrokeTargetError {
    /// The message. `number` is the text of the fraction or color that the error holds, if it
    /// holds one.
    pub open spec fn shown_with(&self, number: Seq<char>) -> Seq<char> {
        match self {
            StrokeTargetError::EmptyCanvas => "sparse stroke canvas is empty"@,
            StrokeTargetError::InvalidTileSize => "sparse stroke tile size is zero"@,
            StrokeTargetError::InvalidPageCapacity { requested, maximum } => "sparse stroke page capacity "@
                + requested.shown()
                + " is invalid; device maximum is "@
                + maximum.shown(),
            StrokeTargetError::TileExceedsDeviceLimit { tile_size, maximum } => "sparse stroke tile size "@
                + tile_size.shown()
                + " exceeds device maximum "@
                + maximum.shown(),
            StrokeTargetError::TileCountOverflow => "sparse stroke tile count overflows"@,
            StrokeTargetError::UniformBufferOverflow => "sparse stroke uniform buffer size overflows"@,
            StrokeTargetError::UniformBufferTooLarge { requested, maximum } => "sparse stroke uniform buffer "@
                + requested.shown()
                + " exceeds device maximum "@
                + maximum.shown(),
            StrokeTargetError::InvalidColor(_) => "invalid stroke color "@ + number,
            StrokeTargetError::InvalidVertexCount(value) => "stroke vertex count "@
                + value.shown()
                + " is not nonzero triangles"@,
            StrokeTargetError::InvalidVertex => "stroke vertices must be finite"@,
            StrokeTargetError::NoTouchedTiles => "stroke batch touches no tiles"@,
            StrokeTargetError::DuplicateTouchedTile(value) => "stroke batch repeats tile ("@
                + value.x.shown()
                + ", "@
                + value.y.shown()
                + ")"@,
            StrokeTargetError::TileCoordinateOverflow(value) => "stroke tile coordinate ("@
                + value.x.shown()
                + ", "@
                + value.y.shown()
                + ") overflows"@,
            StrokeTargetError::TileOutOfBounds(value) => "stroke tile ("@
                + value.x.shown()
                + ", "@
                + value.y.shown()
                + ") is outside the canvas"@,
            StrokeTargetError::DamageOutsideTile { tile, damage, valid_width, valid_height } => "stroke damage "@
                + damage.shown()
                + " exceeds tile ("@
                + tile.x.shown()
                + ", "@
                + tile.y.shown()
                + ") valid extent "@
                + valid_width.shown()
                + "x"@
                + valid_height.shown(),
            StrokeTargetError::VertexBufferOverflow => "stroke vertex buffer size overflows"@,
            StrokeTargetError::VertexBufferTooLarge { requested, maximum } => "stroke vertex buffer "@
                + requested.shown()
                + " exceeds device maximum "@
                + maximum.shown(),
            StrokeTargetError::UniformOffsetOverflow => "stroke uniform offset overflows"@,
            StrokeTargetError::EmptyReadback => "stroke has no tiles to read back"@,
            StrokeTargetError::ReadbackSizeOverflow => "stroke readback size overflows"@,
            StrokeTargetError::ReadbackAlreadyStarted => "stroke readback already started"@,
            StrokeTargetError::ReadbackNotStarted => "stroke readback has not started"@,
            StrokeTargetError::ReadbackAlreadyFinished => "stroke readback already finished"@,
            StrokeTargetError::MapFailed => "stroke readback mapping failed: Error occurred when trying to async map a buffer"@,
            StrokeTargetError::MapChannelDisconnected => "stroke readback callback channel disconnected"@,
            StrokeTargetError::BufferAccess(value) => "stroke buffer access failed: "@ + value@,
        }
    }

    pub fn message(&self, number: &str) -> (text: String)
        ensures
            text@ == self.shown_with(number@),
    {
        match self {
            StrokeTargetError::EmptyCanvas => Message::of("sparse stroke canvas is empty").finish(),
            StrokeTargetError::InvalidTileSize => Message::of("sparse stroke tile size is zero")
                .finish(),
            StrokeTargetError::InvalidPageCapacity { requested, maximum } => Message::of("sparse stroke page capacity ")
                .with(requested)
                .and(" is invalid; device maximum is ")
                .with(maximum)
                .finish(),
            StrokeTargetError::TileExceedsDeviceLimit { tile_size, maximum } => Message::of("sparse stroke tile size ")
                .with(tile_size)
                .and(" exceeds device maximum ")
                .with(maximum)
                .finish(),
            StrokeTargetError::TileCountOverflow => Message::of("sparse stroke tile count overflows")
                .finish(),
            StrokeTargetError::UniformBufferOverflow => Message::of("sparse stroke uniform buffer size overflows")
                .finish(),
            StrokeTargetError::UniformBufferTooLarge { requested, maximum } => Message::of("sparse stroke uniform buffer ")
                .with(requested)
                .and(" exceeds device maximum ")
                .with(maximum)
                .finish(),
            StrokeTargetError::InvalidColor(_) => Message::of("invalid stroke color ")
                .and(number)
                .finish(),
            StrokeTargetError::InvalidVertexCount(value) => Message::of("stroke vertex count ")
                .with(value)
                .and(" is not nonzero triangles")
                .finish(),
            StrokeTargetError::InvalidVertex => Message::of("stroke vertices must be finite")
                .finish(),
            StrokeTargetError::NoTouchedTiles => Message::of("stroke batch touches no tiles")
                .finish(),
            StrokeTargetError::DuplicateTouchedTile(value) => Message::of("stroke batch repeats tile (")
                .with(&value.x)
                .and(", ")
                .with(&value.y)
                .and(")")
                .finish(),
            StrokeTargetError::TileCoordinateOverflow(value) => Message::of("stroke tile coordinate (")
                .with(&value.x)
                .and(", ")
                .with(&value.y)
                .and(") overflows")
                .finish(),
            StrokeTargetError::TileOutOfBounds(value) => Message::of("stroke tile (")
                .with(&value.x)
                .and(", ")
                .with(&value.y)
                .and(") is outside the canvas")
                .finish(),
            StrokeTargetError::DamageOutsideTile { tile, damage, valid_width, valid_height } => Message::of("stroke damage ")
                .with(damage)
                .and(" exceeds tile (")
                .with(&tile.x)
                .and(", ")
                .with(&tile.y)
                .and(") valid extent ")
                .with(valid_width)
                .and("x")
                .with(valid_height)
                .finish(),
            StrokeTargetError::VertexBufferOverflow => Message::of("stroke vertex buffer size overflows")
                .finish(),
            StrokeTargetError::VertexBufferTooLarge { requested, maximum } => Message::of("stroke vertex buffer ")
                .with(requested)
                .and(" exceeds device maximum ")
                .with(maximum)
                .finish(),
            StrokeTargetError::UniformOffsetOverflow => Message::of("stroke uniform offset overflows")
                .finish(),
            StrokeTargetError::EmptyReadback => Message::of("stroke has no tiles to read back")
                .finish(),
            StrokeTargetError::ReadbackSizeOverflow => Message::of("stroke readback size overflows")
                .finish(),
            StrokeTargetError::ReadbackAlreadyStarted => Message::of("stroke readback already started")
                .finish(),
            StrokeTargetError::ReadbackNotStarted => Message::of("stroke readback has not started")
                .finish(),
            StrokeTargetError::ReadbackAlreadyFinished => Message::of("stroke readback already finished")
                .finish(),
            StrokeTargetError::MapFailed => Message::of("stroke readback mapping failed: Error occurred when trying to async map a buffer")
                .finish(),
            StrokeTargetError::MapChannelDisconnected => Message::of("stroke readback callback channel disconnected")
                .finish(),
            StrokeTargetError::BufferAccess(value) => Message::of("stroke buffer access failed: ")
                .and(value.text.as_str())
                .finish(),
        }
    }
}

} // verus!
