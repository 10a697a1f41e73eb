//! Keeping a copy of the document's pixels in main memory.

use crate::document::DocumentRevision;
use crate::gpu_atlas::{AtlasLayout, AtlasSlot, LayerTileKey};
use crate::gpu_document_undo::{
    lemma_area_fits, CapturePlanModel, GpuDocumentMemento, GpuMementoResidentState,
    GpuUndoCapturePlan, GpuUndoCopyRegion, GPU_UNDO_BLOCK_BYTES, GPU_UNDO_BLOCK_SIZE,
    GPU_UNDO_PIXEL_BYTES,
};
use crate::keyed_map::Key;
use crate::pixel_grid::minimum;
use crate::raster::RectU32;
use vstd::prelude::*;

pub use crate::gpu_mirror_capture::{
    encode_gpu_mirror_revision_capture, GpuMirrorReadbackError, GpuMirrorRevisionCapture,
};
pub use crate::gpu_cpu_mirror::{
    GpuCpuMirror, GpuCpuMirrorSnapshot, GpuMirrorPatchBatch, GpuMirrorPatchRegion,
    GpuMirrorReconcileError,
};
pub use crate::gpu_mirror_reconciler::GpuMirrorReconciler;

verus! {

pub const DEFAULT_RECONCILIATION_BYTES_IN_FLIGHT: u64 = 16 * 1024 * 1024;

/// One rectangle of a tile that is read back.
#[derive(Clone, Copy, Debug, PartialEq, Eq)]
pub struct GpuMirrorCopyRegion {
    pub key: LayerTileKey,
    pub slot: AtlasSlot,
    pub local_bounds: RectU32,
    pub physical_origin: [u32; 2],
    pub extent: [u32; 2],
    pub initialized: bool,
    pub buffer_offset: Option<u64>,
    pub bytes_per_row: u32,
    pub block_count: u32,
}

impl GpuMirrorCopyRegion {
    pub open spec fn spec_byte_len(self) -> int {
        if self.initialized {
            self.bytes_per_row * self.extent[1]
        } else {
            0
        }
    }

    pub fn byte_len(self) -> (len: u64)
        ensures
            len == self.spec_byte_len(),
    {
        if self.initialized {
            proof {
                lemma_area_fits(self.bytes_per_row as int, self.extent[1] as int);
            }
            self.bytes_per_row as u64 * self.extent[1] as u64
        } else {
            0
        }
    }
}

/// The regions that one buffer reads back.
#[derive(Clone, Debug, PartialEq, Eq)]
pub struct GpuMirrorBatchPlan {
    pub(crate) layout: AtlasLayout,
    pub(crate) revision: DocumentRevision,
    pub(crate) index: u32,
    pub(crate) regions: Vec<GpuMirrorCopyRegion>,
    pub(crate) byte_len: u64,
    pub(crate) block_count: u32,
}

pub struct BatchPlanModel {
    pub layout: AtlasLayout,
    pub revision: DocumentRevision,
    pub index: int,
    pub regions: Seq<GpuMirrorCopyRegion>,
    pub byte_len: int,
    pub block_count: int,
}

impl View for GpuMirrorBatchPlan {
    type V = BatchPlanModel;

    open(crate) spec fn view(&self) -> BatchPlanModel {
        BatchPlanModel {
            layout: self.layout,
            revision: self.revision,
            index: self.index as int,
            regions: self.regions@,
            byte_len: self.byte_len as int,
            block_count: self.block_count as int,
        }
    }
}

impl GpuMirrorBatchPlan {
    pub fn layout(&self) -> (layout: AtlasLayout)
        ensures
            layout == self@.layout,
    {
        self.layout
    }

    pub fn revision(&self) -> (revision: DocumentRevision)
        ensures
            revision == self@.revision,
    {
        self.revision
    }

    pub fn index(&self) -> (index: u32)
        ensures
            index == self@.index,
    {
        self.index
    }

    pub fn regions(&self) -> (regions: &Vec<GpuMirrorCopyRegion>)
        ensures
            regions@ == self@.regions,
    {
        &self.regions
    }

    pub fn byte_len(&self) -> (len: u64)
        ensures
            len == self@.byte_len,
    {
        self.byte_len
    }

    pub fn block_count(&self) -> (count: u32)
        ensures
            count == self@.block_count,
    {
        self.block_count
    }

    /// A second plan with the same contents.
    pub fn duplicate(&self) -> (copy: GpuMirrorBatchPlan)
        ensures
            copy@ == self@,
    {
        let mut regions: Vec<GpuMirrorCopyRegion> = Vec::new();
        let mut i: usize = 0;
        while i < self.regions.len()
            invariant
                i <= self.regions@.len(),
                regions@ == self.regions@.subrange(0, i as int),
            decreases self.regions@.len() - i,
        {
            regions.push(self.regions[i]);
            i += 1;
            assert(regions@ =~= self.regions@.subrange(0, i as int));
        }
        assert(regions@ =~= self.regions@);
        GpuMirrorBatchPlan {
            layout: self.layout,
            revision: self.revision,
            index: self.index,
            regions,
            byte_len: self.byte_len,
            block_count: self.block_count,
        }
    }
}

/// Everything that one revision reads back, in batches of limited size.
#[derive(Clone, Debug, PartialEq, Eq)]
pub struct GpuMirrorReadbackPlan {
    pub(crate) layout: AtlasLayout,
    pub(crate) revision: DocumentRevision,
    pub(crate) batches: Vec<GpuMirrorBatchPlan>,
    pub(crate) byte_len: u64,
    pub(crate) block_count: u32,
}

pub struct ReadbackPlanModel {
    pub layout: AtlasLayout,
    pub revision: DocumentRevision,
    pub batches: Seq<BatchPlanModel>,
    pub byte_len: int,
    pub block_count: int,
}

pub open(crate) spec fn batch_models(batches: Seq<GpuMirrorBatchPlan>) -> Seq<BatchPlanModel> {
    Seq::new(batches.len(), |i: int| batches[i]@)
}

impl View for GpuMirrorReadbackPlan {
    type V = ReadbackPlanModel;

    open(crate) spec fn view(&self) -> ReadbackPlanModel {
        ReadbackPlanModel {
            layout: self.layout,
            revision: self.revision,
            batches: batch_models(self.batches@),
            byte_len: self.byte_len as int,
            block_count: self.block_count as int,
        }
    }
}

#[derive(Clone, Copy, Debug, PartialEq, Eq, Structural)]
pub enum GpuMirrorPlanError {
    BatchBudgetTooSmall { requested: u64, minimum: u64 },
    ResidentStateCountMismatch { regions: usize, states: usize },
    ResidentIdentityMismatch {
        region_key: LayerTileKey,
        region_slot: AtlasSlot,
        state_key: LayerTileKey,
        state_slot: AtlasSlot,
    },
    RegionRowExceedsBatch { bytes_per_block_row: u64, maximum: u64 },
    BatchCountOverflow,
    ArithmeticOverflow,
}

/// How many rows of a region fit into one batch, counted in whole blocks.
pub open spec fn rows_per_piece(bytes_per_row: int, max: int) -> int {
    minimum(max / bytes_per_row, u32::MAX as int) / 16 * 16
}

pub open spec fn piece_count(height: int, rows: int) -> int {
    (height + rows - 1) / rows
}

/// The `k`th piece of a region that is read back `rows` rows at a time.
pub open(crate) spec fn piece_at(region: GpuUndoCopyRegion, rows: int, k: int) -> GpuMirrorCopyRegion {
    let bounds = region.local_bounds@;
    let min_y = bounds.min_y + k * rows;
    let height = minimum(rows, bounds.max_y - min_y);
    GpuMirrorCopyRegion {
        key: region.key,
        slot: region.slot,
        local_bounds: RectU32 {
            min_x: bounds.min_x as u32,
            min_y: min_y as u32,
            max_x: bounds.max_x as u32,
            max_y: (min_y + height) as u32,
        },
        physical_origin: [
            region.physical_origin[0],
            (region.physical_origin[1] + k * rows) as u32,
        ],
        extent: [bounds.width() as u32, height as u32],
        initialized: true,
        buffer_offset: None,
        bytes_per_row: (bounds.width() * 16) as u32,
        block_count: ((bounds.width() / 16) * (height / 16)) as u32,
    }
}

/// The pieces in which a region is read back. A tile without pixels is named,
/// but nothing of it is copied.
pub open(crate) spec fn region_pieces(
    region: GpuUndoCopyRegion,
    initialized: bool,
    max: int,
) -> Seq<GpuMirrorCopyRegion> {
    let bounds = region.local_bounds@;
    let rows = rows_per_piece(bounds.width() * 16, max);
    if initialized {
        Seq::new(
            piece_count(bounds.height(), rows) as nat,
            |k: int| piece_at(region, rows, k),
        )
    } else {
        seq![
            GpuMirrorCopyRegion {
                key: region.key,
                slot: region.slot,
                local_bounds: region.local_bounds,
                physical_origin: region.physical_origin,
                extent: [bounds.width() as u32, bounds.height() as u32],
                initialized: false,
                buffer_offset: None,
                bytes_per_row: (bounds.width() * 16) as u32,
                block_count: 0,
            },
        ]
    }
}

/// Why a region cannot be cut into pieces, if it cannot.
pub open spec fn piece_error(region: GpuUndoCopyRegion, initialized: bool, max: int) -> Option<
    GpuMirrorPlanError,
> {
    let bounds = region.local_bounds@;
    let bytes_per_row = bounds.width() * 16;
    let rows = rows_per_piece(bytes_per_row, max);
    if bytes_per_row > u32::MAX {
        Some(GpuMirrorPlanError::ArithmeticOverflow)
    } else if !initialized {
        None
    } else if rows < 16 {
        Some(
            GpuMirrorPlanError::RegionRowExceedsBatch {
                bytes_per_block_row: (bytes_per_row * 16) as u64,
                maximum: max as u64,
            },
        )
    } else if (bounds.width() / 16) * (minimum(rows, bounds.height()) / 16) > u32::MAX
        || region.physical_origin[1] + bounds.height() > u32::MAX {
        Some(GpuMirrorPlanError::ArithmeticOverflow)
    } else {
        None
    }
}

/// The pieces that are cut off a region before it is found that the rest cannot be cut. There are
/// some only where the place of the region reaches past the last row that can be named: the piece
/// that reaches past it is the last.
pub open spec fn pieces_before_error(region: GpuUndoCopyRegion, max: int) -> Seq<
    GpuMirrorCopyRegion,
> {
    let bounds = region.local_bounds@;
    let bytes_per_row = bounds.width() * 16;
    let rows = rows_per_piece(bytes_per_row, max);
    if bytes_per_row > u32::MAX || rows < 16 || (bounds.width() / 16) * (minimum(
        rows,
        bounds.height(),
    ) / 16) > u32::MAX {
        Seq::empty()
    } else {
        Seq::new(
            ((u32::MAX - region.physical_origin[1]) / rows + 1) as nat,
            |k: int| piece_at(region, rows, k),
        )
    }
}

/// Why the `i`th region cannot be read back, if it cannot.
pub open spec fn region_error(
    regions: Seq<GpuUndoCopyRegion>,
    states: Seq<GpuMementoResidentState>,
    max: int,
    i: int,
) -> Option<GpuMirrorPlanError> {
    if regions[i].key != states[i].key || regions[i].slot != states[i].slot {
        Some(
            GpuMirrorPlanError::ResidentIdentityMismatch {
                region_key: regions[i].key,
                region_slot: regions[i].slot,
                state_key: states[i].key,
                state_slot: states[i].slot,
            },
        )
    } else {
        piece_error(regions[i], states[i].document_initialized, max)
    }
}

/// The pieces of the first `n` regions, or the first reason why there are none.
pub open(crate) spec fn collected_pieces(
    regions: Seq<GpuUndoCopyRegion>,
    states: Seq<GpuMementoResidentState>,
    max: int,
    n: int,
) -> Result<Seq<GpuMirrorCopyRegion>, GpuMirrorPlanError>
    decreases n,
{
    if n <= 0 {
        Ok(Seq::empty())
    } else {
        match collected_pieces(regions, states, max, n - 1) {
            Ok(pieces) => match region_error(regions, states, max, n - 1) {
                Some(error) => Err(error),
                None => Ok(
                    pieces + region_pieces(
                        regions[n - 1],
                        states[n - 1].document_initialized,
                        max,
                    ),
                ),
            },
            Err(error) => Err(error),
        }
    }
}

/// Whether `piece` has to start a batch of its own.
pub open spec fn needs_batch(
    batches: Seq<BatchPlanModel>,
    piece: GpuMirrorCopyRegion,
    max: int,
) -> bool {
    ||| batches.len() == 0
    ||| batches.last().byte_len != 0 && batches.last().byte_len + piece.spec_byte_len() > max
}

pub open spec fn empty_batch(
    layout: AtlasLayout,
    revision: DocumentRevision,
    index: int,
) -> BatchPlanModel {
    BatchPlanModel {
        layout,
        revision,
        index,
        regions: Seq::empty(),
        byte_len: 0,
        block_count: 0,
    }
}

/// The batch with one piece more, behind the bytes that it already holds.
pub open spec fn with_piece(batch: BatchPlanModel, piece: GpuMirrorCopyRegion) -> BatchPlanModel {
    BatchPlanModel {
        regions: batch.regions.push(
            GpuMirrorCopyRegion {
                buffer_offset: if piece.initialized {
                    Some(batch.byte_len as u64)
                } else {
                    piece.buffer_offset
                },
                ..piece
            },
        ),
        byte_len: batch.byte_len + piece.spec_byte_len(),
        block_count: batch.block_count + piece.block_count,
        ..batch
    }
}

/// The batches after one piece more.
pub open spec fn pack_piece(
    layout: AtlasLayout,
    revision: DocumentRevision,
    batches: Seq<BatchPlanModel>,
    piece: GpuMirrorCopyRegion,
    max: int,
) -> Result<Seq<BatchPlanModel>, GpuMirrorPlanError> {
    if needs_batch(batches, piece, max) && batches.len() > u32::MAX {
        Err(GpuMirrorPlanError::BatchCountOverflow)
    } else {
        let opened = if needs_batch(batches, piece, max) {
            batches.push(empty_batch(layout, revision, batches.len() as int))
        } else {
            batches
        };
        let filled = with_piece(opened.last(), piece);
        if filled.byte_len > u64::MAX || filled.block_count > u32::MAX {
            Err(GpuMirrorPlanError::ArithmeticOverflow)
        } else {
            Ok(opened.drop_last().push(filled))
        }
    }
}

/// The pieces in batches, each as full as the next piece allows.
pub open spec fn packed(
    layout: AtlasLayout,
    revision: DocumentRevision,
    pieces: Seq<GpuMirrorCopyRegion>,
    max: int,
) -> Result<Seq<BatchPlanModel>, GpuMirrorPlanError>
    decreases pieces.len(),
{
    if pieces.len() == 0 {
        Ok(Seq::empty())
    } else {
        match packed(layout, revision, pieces.drop_last(), max) {
            Ok(batches) => pack_piece(layout, revision, batches, pieces.last(), max),
            Err(error) => Err(error),
        }
    }
}

pub open spec fn batch_bytes(batches: Seq<BatchPlanModel>) -> int
    decreases batches.len(),
{
    if batches.len() == 0 {
        0
    } else {
        batch_bytes(batches.drop_last()) + batches.last().byte_len
    }
}

pub open spec fn batch_blocks(batches: Seq<BatchPlanModel>) -> int
    decreases batches.len(),
{
    if batches.len() == 0 {
        0
    } else {
        batch_blocks(batches.drop_last()) + batches.last().block_count
    }
}

/// A plan counts the bytes and blocks of its batches.
pub open spec fn plan_totals(plan: ReadbackPlanModel) -> bool {
    plan.byte_len == batch_bytes(plan.batches) && plan.block_count == batch_blocks(plan.batches)
}

/// The plan for reading back what `capture` names, or why there is none.
pub open(crate) spec fn readback_plan(
    revision: DocumentRevision,
    capture: CapturePlanModel,
    states: Seq<GpuMementoResidentState>,
    max: u64,
) -> Result<ReadbackPlanModel, GpuMirrorPlanError> {
    if max < GPU_UNDO_BLOCK_BYTES {
        Err(
            GpuMirrorPlanError::BatchBudgetTooSmall {
                requested: max,
                minimum: GPU_UNDO_BLOCK_BYTES,
            },
        )
    } else if capture.regions.len() != states.len() {
        Err(
            GpuMirrorPlanError::ResidentStateCountMismatch {
                regions: capture.regions.len() as usize,
                states: states.len() as usize,
            },
        )
    } else {
        match collected_pieces(capture.regions, states, max as int, states.len() as int) {
            Ok(pieces) => match packed(capture.layout, revision, pieces, max as int) {
                Ok(batches) => if batch_bytes(batches) > u64::MAX || batch_blocks(batches)
                    > u32::MAX {
                    Err(GpuMirrorPlanError::ArithmeticOverflow)
                } else {
                    Ok(
                        ReadbackPlanModel {
                            layout: capture.layout,
                            revision,
                            batches,
                            byte_len: batch_bytes(batches),
                            block_count: batch_blocks(batches),
                        },
                    )
                },
                Err(error) => Err(error),
            },
            Err(error) => Err(error),
        }
    }
}

pub(crate) proof fn lemma_piece_count(height: int, rows: int, k: int)
    requires
        0 < height,
        0 < rows,
        0 <= k,
    ensures
        k * rows < height <==> k < piece_count(height, rows),
        piece_count(height, rows) > 0,
{
    let count = piece_count(height, rows);
    vstd::arithmetic::div_mod::lemma_fundamental_div_mod(height + rows - 1, rows);
    let rest = (height + rows - 1) % rows;
    assert(k * rows < height <==> k < count) by (nonlinear_arith)
        requires
            height + rows - 1 == rows * count + rest,
            0 <= rest < rows,
            0 < rows,
    ;
    assert(count > 0) by (nonlinear_arith)
        requires
            height + rows - 1 == rows * count + rest,
            0 <= rest < rows,
            0 < rows,
            0 < height,
    ;
}

/// Cuts a region into pieces that fit into a batch.
fn append_region_pieces(
    region: &GpuUndoCopyRegion,
    initialized: bool,
    max_batch_bytes: u64,
    pieces: &mut Vec<GpuMirrorCopyRegion>,
) -> (appended: Result<(), GpuMirrorPlanError>)
    ensures
        match appended {
            Ok(_) => {
                &&& piece_error(*region, initialized, max_batch_bytes as int) is None
                &&& final(pieces)@ == old(pieces)@ + region_pieces(
                    *region,
                    initialized,
                    max_batch_bytes as int,
                )
            },
            Err(error) => {
                &&& piece_error(*region, initialized, max_batch_bytes as int) == Some(error)
                &&& final(pieces)@ == old(pieces)@ + pieces_before_error(
                    *region,
                    max_batch_bytes as int,
                )
            },
        },
{
    let local_bounds = region.local_bounds;
    let ghost bounds = local_bounds@;
    let width: u32 = local_bounds.width();
    let height: u32 = local_bounds.height();
    let bytes_per_row = match width.checked_mul(GPU_UNDO_PIXEL_BYTES) {
        Some(bytes) => bytes,
        None => {
            return Err(GpuMirrorPlanError::ArithmeticOverflow);
        },
    };
    if !initialized {
        pieces.push(
            GpuMirrorCopyRegion {
                key: region.key,
                slot: region.slot,
                local_bounds,
                physical_origin: region.physical_origin,
                extent: [width, height],
                initialized: false,
                buffer_offset: None,
                bytes_per_row,
                block_count: 0,
            },
        );
        assert(pieces@ =~= old(pieces)@ + region_pieces(
            *region,
            initialized,
            max_batch_bytes as int,
        ));
        return Ok(());
    }
    let fitting: u64 = max_batch_bytes / bytes_per_row as u64;
    let fitting_rows: u32 = if fitting <= u32::MAX as u64 {
        fitting as u32
    } else {
        u32::MAX
    };
    let rows: u32 = fitting_rows / GPU_UNDO_BLOCK_SIZE * GPU_UNDO_BLOCK_SIZE;
    assert(rows == rows_per_piece(bounds.width() * 16, max_batch_bytes as int));
    if rows < GPU_UNDO_BLOCK_SIZE {
        return Err(
            GpuMirrorPlanError::RegionRowExceedsBatch {
                bytes_per_block_row: bytes_per_row as u64 * GPU_UNDO_BLOCK_SIZE as u64,
                maximum: max_batch_bytes,
            },
        );
    }
    let max_y: u32 = local_bounds.max_y();
    let min_y: u32 = local_bounds.min_y();
    let mut local_y: u32 = min_y;
    let mut physical_y: u32 = region.physical_origin[1];
    let ghost count = piece_count(height as int, rows as int);
    let ghost mut k: int = 0;
    proof {
        lemma_piece_count(height as int, rows as int, 0);
        assert(pieces@ =~= old(pieces)@ + Seq::new(
            0nat,
            |j: int| piece_at(*region, rows as int, j),
        ));
    }
    while local_y < max_y
        invariant
            initialized,
            local_bounds == region.local_bounds,
            bounds == local_bounds@,
            bounds.nonempty(),
            min_y == bounds.min_y,
            max_y == bounds.max_y,
            width == bounds.width(),
            height == bounds.height(),
            bytes_per_row == bounds.width() * 16,
            rows == rows_per_piece(bounds.width() * 16, max_batch_bytes as int),
            rows >= 16,
            count == piece_count(height as int, rows as int),
            0 <= k <= count,
            local_y == minimum(min_y + k * rows, max_y as int),
            physical_y == region.physical_origin[1] + local_y - min_y,
            pieces@ == old(pieces)@ + Seq::new(
                k as nat,
                |j: int| piece_at(*region, rows as int, j),
            ),
            k > 0 ==> (bounds.width() / 16) * (minimum(rows as int, bounds.height()) / 16)
                <= u32::MAX,
        decreases max_y - local_y,
    {
        proof {
            lemma_piece_count(height as int, rows as int, k);
        }
        let piece_height: u32 = if rows <= max_y - local_y { rows } else { max_y - local_y };
        proof {
            assert(local_y == min_y + k * rows);
            assert(piece_height == minimum(rows as int, bounds.max_y - (bounds.min_y + k * rows)));
            assert(piece_height <= minimum(rows as int, bounds.height())) by {
                assert(k * rows >= 0) by (nonlinear_arith)
                    requires
                        k >= 0,
                        rows >= 0,
                ;
            }
        }
        let piece_bounds = match RectU32::from_min_max(
            local_bounds.min_x(),
            local_y,
            local_bounds.max_x(),
            local_y + piece_height,
        ) {
            Some(piece_bounds) => piece_bounds,
            None => {
                return Err(GpuMirrorPlanError::ArithmeticOverflow);
            },
        };
        let ghost across = bounds.width() / 16;
        let ghost down = minimum(rows as int, bounds.height()) / 16;
        let block_count = match (width / GPU_UNDO_BLOCK_SIZE).checked_mul(
            piece_height / GPU_UNDO_BLOCK_SIZE,
        ) {
            Some(count) => count,
            None => {
                proof {
                    let here = piece_height as int / 16;
                    assert(across * down >= across * here) by (nonlinear_arith)
                        requires
                            down >= here,
                            across >= 0,
                    ;
                }
                return Err(GpuMirrorPlanError::ArithmeticOverflow);
            },
        };
        let ghost before = pieces@;
        pieces.push(
            GpuMirrorCopyRegion {
                key: region.key,
                slot: region.slot,
                local_bounds: piece_bounds,
                physical_origin: [region.physical_origin[0], physical_y],
                extent: [width, piece_height],
                initialized: true,
                buffer_offset: None,
                bytes_per_row,
                block_count,
            },
        );
        proof {
            assert(pieces@.last() == piece_at(*region, rows as int, k));
            assert(pieces@ =~= old(pieces)@ + Seq::new(
                (k + 1) as nat,
                |j: int| piece_at(*region, rows as int, j),
            ));
            assert((k + 1) * rows == k * rows + rows) by (nonlinear_arith);
            if k == 0 {
                assert(piece_height == minimum(rows as int, bounds.height()));
            }
        }
        local_y = local_y + piece_height;
        physical_y = match physical_y.checked_add(piece_height) {
            Some(y) => y,
            None => {
                proof {
                    let room = u32::MAX - region.physical_origin[1];
                    assert(rows * k == k * rows && (k + 1) * rows == k * rows + rows)
                        by (nonlinear_arith);
                    assert(room / (rows as int) == k) by {
                        vstd::arithmetic::div_mod::lemma_fundamental_div_mod_converse(
                            room,
                            rows as int,
                            k,
                            room - k * rows,
                        );
                    }
                }
                return Err(GpuMirrorPlanError::ArithmeticOverflow);
            },
        };
        proof {
            k = k + 1;
        }
    }
    proof {
        lemma_piece_count(height as int, rows as int, k);
        assert(k == count);
    }
    Ok(())
}

impl GpuMirrorReadbackPlan {
    /// The plan for reading back what the edit of `memento` changed.
    /// The totals are those of the batches.
    pub open(crate) spec fn wf(self) -> bool {
        plan_totals(self@)
    }

    pub fn from_memento(
        revision: DocumentRevision,
        memento: &GpuDocumentMemento,
        max_batch_bytes: u64,
    ) -> (plan: Result<GpuMirrorReadbackPlan, GpuMirrorPlanError>)
        ensures
            match plan {
                Ok(plan) => plan.wf() && readback_plan(
                    revision,
                    memento@.plan,
                    memento@.states,
                    max_batch_bytes,
                ) == Ok::<ReadbackPlanModel, GpuMirrorPlanError>(plan@),
                Err(error) => readback_plan(
                    revision,
                    memento@.plan,
                    memento@.states,
                    max_batch_bytes,
                ) == Err::<ReadbackPlanModel, GpuMirrorPlanError>(error),
            },
    {
        GpuMirrorReadbackPlan::from_capture(
            revision,
            memento.plan(),
            memento.resident_states(),
            max_batch_bytes,
        )
    }

    /// The plan for reading back the regions of `capture`, in batches of at most
    /// `max_batch_bytes`.
    pub fn from_capture(
        revision: DocumentRevision,
        capture: &GpuUndoCapturePlan,
        resident_states: &Vec<GpuMementoResidentState>,
        max_batch_bytes: u64,
    ) -> (plan: Result<GpuMirrorReadbackPlan, GpuMirrorPlanError>)
        ensures
            match plan {
                Ok(plan) => plan.wf() && readback_plan(
                    revision,
                    capture@,
                    resident_states@,
                    max_batch_bytes,
                ) == Ok::<ReadbackPlanModel, GpuMirrorPlanError>(plan@),
                Err(error) => readback_plan(
                    revision,
                    capture@,
                    resident_states@,
                    max_batch_bytes,
                ) == Err::<ReadbackPlanModel, GpuMirrorPlanError>(error),
            },
    {
        if max_batch_bytes < GPU_UNDO_BLOCK_BYTES {
            return Err(
                GpuMirrorPlanError::BatchBudgetTooSmall {
                    requested: max_batch_bytes,
                    minimum: GPU_UNDO_BLOCK_BYTES,
                },
            );
        }
        let regions = capture.regions();
        if regions.len() != resident_states.len() {
            return Err(
                GpuMirrorPlanError::ResidentStateCountMismatch {
                    regions: regions.len(),
                    states: resident_states.len(),
                },
            );
        }
        let ghost max = max_batch_bytes as int;
        let mut pieces: Vec<GpuMirrorCopyRegion> = Vec::new();
        let mut i: usize = 0;
        while i < regions.len()
            invariant
                max == max_batch_bytes,
                max_batch_bytes >= GPU_UNDO_BLOCK_BYTES,
                i <= regions@.len(),
                regions@ == capture@.regions,
                regions@.len() == resident_states@.len(),
                collected_pieces(regions@, resident_states@, max, i as int) == Ok::<
                    Seq<GpuMirrorCopyRegion>,
                    GpuMirrorPlanError,
                >(pieces@),
            decreases regions@.len() - i,
        {
            let region = &regions[i];
            let state = resident_states[i];
            if !region.key.same(state.key) || !region.slot.same(state.slot) {
                proof {
                    lemma_collect_fails(
                        regions@,
                        resident_states@,
                        max,
                        i as int + 1,
                        regions@.len() as int,
                    );
                }
                return Err(
                    GpuMirrorPlanError::ResidentIdentityMismatch {
                        region_key: region.key,
                        region_slot: region.slot,
                        state_key: state.key,
                        state_slot: state.slot,
                    },
                );
            }
            match append_region_pieces(
                region,
                state.document_initialized,
                max_batch_bytes,
                &mut pieces,
            ) {
                Ok(_) => {},
                Err(error) => {
                    proof {
                        lemma_collect_fails(
                            regions@,
                            resident_states@,
                            max,
                            i as int + 1,
                            regions@.len() as int,
                        );
                    }
                    return Err(error);
                },
            }
            i += 1;
        }
        let batches = match pack_pieces(capture.layout(), revision, &pieces, max_batch_bytes) {
            Ok(batches) => batches,
            Err(error) => {
                return Err(error);
            },
        };
        match batch_totals(&batches) {
            Some((byte_len, block_count)) => Ok(
                GpuMirrorReadbackPlan {
                    layout: capture.layout(),
                    revision,
                    batches,
                    byte_len,
                    block_count,
                },
            ),
            None => Err(GpuMirrorPlanError::ArithmeticOverflow),
        }
    }

    pub fn layout(&self) -> (layout: AtlasLayout)
        ensures
            layout == self@.layout,
    {
        self.layout
    }

    pub fn revision(&self) -> (revision: DocumentRevision)
        ensures
            revision == self@.revision,
    {
        self.revision
    }

    pub fn batches(&self) -> (batches: &Vec<GpuMirrorBatchPlan>)
        ensures
            batch_models(batches@) == self@.batches,
    {
        &self.batches
    }

    pub fn byte_len(&self) -> (len: u64)
        ensures
            len == self@.byte_len,
    {
        self.byte_len
    }

    pub fn block_count(&self) -> (count: u32)
        ensures
            count == self@.block_count,
    {
        self.block_count
    }

    /// A second plan with the same contents.
    pub fn duplicate(&self) -> (copy: GpuMirrorReadbackPlan)
        ensures
            copy@ == self@,
    {
        let mut batches: Vec<GpuMirrorBatchPlan> = Vec::new();
        let mut i: usize = 0;
        while i < self.batches.len()
            invariant
                i <= self.batches@.len(),
                batches@.len() == i,
                forall|k: int| 0 <= k < i ==> (#[trigger] batches@[k])@ == self.batches@[k]@,
            decreases self.batches@.len() - i,
        {
            batches.push(self.batches[i].duplicate());
            i += 1;
        }
        assert(batch_models(batches@) =~= batch_models(self.batches@));
        GpuMirrorReadbackPlan {
            layout: self.layout,
            revision: self.revision,
            batches,
            byte_len: self.byte_len,
            block_count: self.block_count,
        }
    }
}

proof fn lemma_collect_fails(
    regions: Seq<GpuUndoCopyRegion>,
    states: Seq<GpuMementoResidentState>,
    max: int,
    at: int,
    n: int,
)
    requires
        0 <= at <= n,
        collected_pieces(regions, states, max, at) is Err,
    ensures
        collected_pieces(regions, states, max, n) == collected_pieces(regions, states, max, at),
    decreases n - at,
{
    if at < n {
        lemma_collect_fails(regions, states, max, at + 1, n);
    }
}

proof fn lemma_pack_fails(
    layout: AtlasLayout,
    revision: DocumentRevision,
    pieces: Seq<GpuMirrorCopyRegion>,
    max: int,
    at: int,
)
    requires
        0 <= at <= pieces.len(),
        packed(layout, revision, pieces.subrange(0, at), max) is Err,
    ensures
        packed(layout, revision, pieces, max) == packed(
            layout,
            revision,
            pieces.subrange(0, at),
            max,
        ),
    decreases pieces.len() - at,
{
    if at == pieces.len() {
        assert(pieces.subrange(0, at) =~= pieces);
    } else {
        assert(pieces.subrange(0, at + 1).drop_last() =~= pieces.subrange(0, at));
        lemma_pack_fails(layout, revision, pieces, max, at + 1);
    }
}

fn checked_u32(value: usize) -> (checked: Result<u32, GpuMirrorPlanError>)
    ensures
        match checked {
            Ok(checked) => checked == value,
            Err(error) => value > u32::MAX && error == GpuMirrorPlanError::BatchCountOverflow,
        },
{
    if value as u64 > u32::MAX as u64 {
        Err(GpuMirrorPlanError::BatchCountOverflow)
    } else {
        Ok(value as u32)
    }
}

/// Fills batches with pieces, in order.
fn pack_pieces(
    layout: AtlasLayout,
    revision: DocumentRevision,
    pieces: &Vec<GpuMirrorCopyRegion>,
    max_batch_bytes: u64,
) -> (batches: Result<Vec<GpuMirrorBatchPlan>, GpuMirrorPlanError>)
    ensures
        match batches {
            Ok(batches) => packed(layout, revision, pieces@, max_batch_bytes as int) == Ok::<
                Seq<BatchPlanModel>,
                GpuMirrorPlanError,
            >(batch_models(batches@)),
            Err(error) => packed(layout, revision, pieces@, max_batch_bytes as int) == Err::<
                Seq<BatchPlanModel>,
                GpuMirrorPlanError,
            >(error),
        },
{
    let ghost max = max_batch_bytes as int;
    let mut batches: Vec<GpuMirrorBatchPlan> = Vec::new();
    let mut i: usize = 0;
    assert(pieces@.subrange(0, 0) =~= Seq::<GpuMirrorCopyRegion>::empty());
    assert(batch_models(batches@) =~= Seq::<BatchPlanModel>::empty());
    while i < pieces.len()
        invariant
            max == max_batch_bytes,
            i <= pieces@.len(),
            packed(layout, revision, pieces@.subrange(0, i as int), max) == Ok::<
                Seq<BatchPlanModel>,
                GpuMirrorPlanError,
            >(batch_models(batches@)),
        decreases pieces@.len() - i,
    {
        let mut piece = pieces[i];
        let ghost models = batch_models(batches@);
        proof {
            let prefix = pieces@.subrange(0, i as int + 1);
            assert(prefix.drop_last() =~= pieces@.subrange(0, i as int));
            assert(prefix.last() == pieces@[i as int]);
            if packed(layout, revision, prefix, max) is Err {
                lemma_pack_fails(layout, revision, pieces@, max, i as int + 1);
            }
        }
        let piece_bytes: u64 = piece.byte_len();
        let fresh = match batches.pop() {
            None => true,
            Some(last) => {
                let fresh = last.byte_len != 0 && match last.byte_len.checked_add(piece_bytes) {
                    Some(combined) => combined > max_batch_bytes,
                    None => true,
                };
                batches.push(last);
                fresh
            },
        };
        assert(batch_models(batches@) =~= models);
        assert(fresh == needs_batch(models, piece, max));
        if fresh {
            let index = match checked_u32(batches.len()) {
                Ok(index) => index,
                Err(error) => {
                    return Err(error);
                },
            };
            batches.push(
                GpuMirrorBatchPlan {
                    layout,
                    revision,
                    index,
                    regions: Vec::new(),
                    byte_len: 0,
                    block_count: 0,
                },
            );
            assert(batches@.last()@ == empty_batch(layout, revision, models.len() as int));
        }
        let ghost opened = batch_models(batches@);
        proof {
            assert(opened =~= if needs_batch(models, piece, max) {
                models.push(empty_batch(layout, revision, models.len() as int))
            } else {
                models
            });
        }
        let mut batch = match batches.pop() {
            Some(batch) => batch,
            None => {
                return Err(GpuMirrorPlanError::ArithmeticOverflow);
            },
        };
        let ghost filled = with_piece(batch@, piece);
        if piece.initialized {
            piece.buffer_offset = Some(batch.byte_len);
            batch.byte_len = match batch.byte_len.checked_add(piece_bytes) {
                Some(byte_len) => byte_len,
                None => {
                    return Err(GpuMirrorPlanError::ArithmeticOverflow);
                },
            };
        }
        batch.block_count = match batch.block_count.checked_add(piece.block_count) {
            Some(block_count) => block_count,
            None => {
                return Err(GpuMirrorPlanError::ArithmeticOverflow);
            },
        };
        batch.regions.push(piece);
        assert(batch@.regions =~= filled.regions);
        assert(batch@ == filled);
        batches.push(batch);
        assert(batch_models(batches@) =~= opened.drop_last().push(filled));
        i += 1;
    }
    assert(pieces@.subrange(0, i as int) =~= pieces@);
    Ok(batches)
}

proof fn lemma_batch_totals_grow(batches: Seq<BatchPlanModel>, at: int)
    requires
        0 <= at <= batches.len(),
        forall|i: int|
            0 <= i < batches.len() ==> (#[trigger] batches[i]).byte_len >= 0
                && batches[i].block_count >= 0,
    ensures
        0 <= batch_bytes(batches.subrange(0, at)) <= batch_bytes(batches),
        0 <= batch_blocks(batches.subrange(0, at)) <= batch_blocks(batches),
    decreases batches.len(),
{
    if batches.len() == 0 {
        assert(batches.subrange(0, at) =~= batches);
    } else {
        let rest = batches.drop_last();
        assert forall|i: int| 0 <= i < rest.len() implies (#[trigger] rest[i]).byte_len >= 0
            && rest[i].block_count >= 0 by {
            assert(rest[i] == batches[i]);
        }
        assert(batches[batches.len() - 1].byte_len >= 0);
        if at == batches.len() {
            lemma_batch_totals_grow(rest, rest.len() as int);
            assert(batches.subrange(0, at) =~= batches);
            assert(rest.subrange(0, rest.len() as int) =~= rest);
        } else {
            lemma_batch_totals_grow(rest, at);
            assert(rest.subrange(0, at) =~= batches.subrange(0, at));
        }
    }
}

/// The bytes and the blocks of all batches, unless they are too many to count.
fn batch_totals(batches: &Vec<GpuMirrorBatchPlan>) -> (totals: Option<(u64, u32)>)
    ensures
        match totals {
            Some((bytes, blocks)) => bytes == batch_bytes(batch_models(batches@)) && blocks
                == batch_blocks(batch_models(batches@)),
            None => batch_bytes(batch_models(batches@)) > u64::MAX || batch_blocks(
                batch_models(batches@),
            ) > u32::MAX,
        },
{
    let ghost models = batch_models(batches@);
    let mut bytes: u64 = 0;
    let mut blocks: u32 = 0;
    let mut i: usize = 0;
    assert(models.subrange(0, 0) =~= Seq::<BatchPlanModel>::empty());
    while i < batches.len()
        invariant
            models == batch_models(batches@),
            i <= batches@.len(),
            bytes == batch_bytes(models.subrange(0, i as int)),
            blocks == batch_blocks(models.subrange(0, i as int)),
        decreases batches@.len() - i,
    {
        proof {
            let prefix = models.subrange(0, i as int + 1);
            assert(prefix.drop_last() =~= models.subrange(0, i as int));
            assert(prefix.last() == batches@[i as int]@);
            lemma_batch_totals_grow(models, i as int + 1);
        }
        bytes = match bytes.checked_add(batches[i].byte_len) {
            Some(bytes) => bytes,
            None => {
                return None;
            },
        };
        blocks = match blocks.checked_add(batches[i].block_count) {
            Some(blocks) => blocks,
            None => {
                return None;
            },
        };
        i += 1;
    }
    assert(models.subrange(0, i as int) =~= models);
    Some((bytes, blocks))
}

/// Whether a region to copy can be cut into pieces: it holds pixels, and lies in the image that
/// its numbers can name.
pub open spec fn region_holds_pixels(region: GpuUndoCopyRegion) -> bool {
    &&& region.local_bounds@.nonempty()
    &&& 0 <= region.local_bounds@.min_x
    &&& 0 <= region.local_bounds@.min_y
    &&& region.local_bounds@.max_x <= u32::MAX
    &&& region.local_bounds@.max_y <= u32::MAX
}

/// A region that is read back in pieces is read back whole: each of its pixels lies in a piece,
/// and each piece begins at a row of blocks.
pub proof fn law_pieces_cover_the_region(region: GpuUndoCopyRegion, max: int, x: int, y: int)
    requires
        region_holds_pixels(region),
        piece_error(region, true, max) is None,
        region.local_bounds@.contains(x, y),
    ensures
        exists|k: int|
            0 <= k < region_pieces(region, true, max).len() && (#[trigger] region_pieces(
                region,
                true,
                max,
            )[k]).local_bounds@.contains(x, y) && (region_pieces(region, true, max)[k].local_bounds@.min_y
                - region.local_bounds@.min_y) % 16 == 0,
{
    let bounds = region.local_bounds@;
    let rows = rows_per_piece(bounds.width() * 16, max);
    let offset = y - bounds.min_y;
    let k = offset / rows;
    vstd::arithmetic::div_mod::lemma_fundamental_div_mod(offset, rows);
    assert(k >= 0) by (nonlinear_arith)
        requires
            k == offset / rows,
            offset >= 0,
            rows > 0,
    ;
    assert(rows * k == k * rows) by (nonlinear_arith);
    lemma_piece_count(bounds.height(), rows, k);
    let pieces = region_pieces(region, true, max);
    let piece = pieces[k];
    assert(piece == piece_at(region, rows, k));
    assert((k * rows) % 16 == 0) by {
        let blocks = rows / 16;
        assert(rows == blocks * 16);
        assert(k * (blocks * 16) == (k * blocks) * 16) by (nonlinear_arith);
    }
    assert(piece.local_bounds@.contains(x, y));
}

proof fn lemma_piece_fits(region: GpuUndoCopyRegion, initialized: bool, max: int, k: int)
    requires
        region_holds_pixels(region),
        piece_error(region, initialized, max) is None,
        max >= 0,
        0 <= k < region_pieces(region, initialized, max).len(),
    ensures
        0 <= region_pieces(region, initialized, max)[k].spec_byte_len() <= max,
{
    let bounds = region.local_bounds@;
    let bytes_per_row = bounds.width() * 16;
    if initialized {
        let rows = rows_per_piece(bytes_per_row, max);
        lemma_piece_count(bounds.height(), rows, k);
        let piece = piece_at(region, rows, k);
        assert(k * rows >= 0) by (nonlinear_arith)
            requires
                k >= 0,
                rows > 0,
        ;
        let height = minimum(rows, bounds.max_y - (bounds.min_y + k * rows));
        assert(piece.extent[1] == height);
        assert(piece.bytes_per_row == bytes_per_row);
        vstd::arithmetic::div_mod::lemma_fundamental_div_mod(max, bytes_per_row);
        assert(0 <= bytes_per_row * height <= max) by (nonlinear_arith)
            requires
                0 <= height <= rows,
                rows <= max / bytes_per_row,
                bytes_per_row > 0,
                max == bytes_per_row * (max / bytes_per_row) + max % bytes_per_row,
                max % bytes_per_row >= 0,
        ;
    }
}

proof fn lemma_collected_fit(
    regions: Seq<GpuUndoCopyRegion>,
    states: Seq<GpuMementoResidentState>,
    max: int,
    n: int,
    k: int,
)
    requires
        0 <= n <= regions.len(),
        max >= 0,
        forall|i: int| 0 <= i < regions.len() ==> region_holds_pixels(#[trigger] regions[i]),
        collected_pieces(regions, states, max, n) is Ok,
        0 <= k < collected_pieces(regions, states, max, n)->Ok_0.len(),
    ensures
        0 <= collected_pieces(regions, states, max, n)->Ok_0[k].spec_byte_len() <= max,
    decreases n,
{
    if n > 0 {
        let earlier = collected_pieces(regions, states, max, n - 1)->Ok_0;
        assert(region_holds_pixels(regions[n - 1]));
        if k < earlier.len() {
            lemma_collected_fit(regions, states, max, n - 1, k);
        } else {
            lemma_piece_fits(
                regions[n - 1],
                states[n - 1].document_initialized,
                max,
                k - earlier.len(),
            );
        }
    }
}

/// A piece without its place in a buffer.
pub open spec fn unplaced(region: GpuMirrorCopyRegion) -> GpuMirrorCopyRegion {
    GpuMirrorCopyRegion { buffer_offset: None, ..region }
}

/// The pieces of all batches, one after the other, without their places.
pub open spec fn batched_pieces(batches: Seq<BatchPlanModel>) -> Seq<GpuMirrorCopyRegion>
    decreases batches.len(),
{
    if batches.len() == 0 {
        Seq::empty()
    } else {
        batched_pieces(batches.drop_last()) + Seq::new(
            batches.last().regions.len(),
            |i: int| unplaced(batches.last().regions[i]),
        )
    }
}

proof fn lemma_packed(
    layout: AtlasLayout,
    revision: DocumentRevision,
    pieces: Seq<GpuMirrorCopyRegion>,
    max: int,
)
    requires
        packed(layout, revision, pieces, max) is Ok,
        max >= 0,
        forall|k: int|
            0 <= k < pieces.len() ==> 0 <= (#[trigger] pieces[k]).spec_byte_len() <= max,
    ensures
        forall|i: int|
            #![trigger (packed(layout, revision, pieces, max)->Ok_0)[i]]
            0 <= i < (packed(layout, revision, pieces, max)->Ok_0).len() ==> 0 <= (packed(
                layout,
                revision,
                pieces,
                max,
            )->Ok_0)[i].byte_len <= max && (packed(layout, revision, pieces, max)->Ok_0)[i].index
                == i,
        batched_pieces(packed(layout, revision, pieces, max)->Ok_0) == Seq::new(
            pieces.len(),
            |k: int| unplaced(pieces[k]),
        ),
    decreases pieces.len(),
{
    let batches = packed(layout, revision, pieces, max)->Ok_0;
    if pieces.len() == 0 {
        assert(batched_pieces(batches) =~= Seq::new(pieces.len(), |k: int| unplaced(pieces[k])));
    } else {
        let rest = pieces.drop_last();
        let last = pieces.last();
        assert forall|k: int| 0 <= k < rest.len() implies 0 <= (#[trigger] rest[k]).spec_byte_len()
            <= max by {
            assert(rest[k] == pieces[k]);
        }
        assert(pieces[pieces.len() - 1] == last);
        lemma_packed(layout, revision, rest, max);
        let earlier = packed(layout, revision, rest, max)->Ok_0;
        let opened = if needs_batch(earlier, last, max) {
            earlier.push(empty_batch(layout, revision, earlier.len() as int))
        } else {
            earlier
        };
        let filled = with_piece(opened.last(), last);
        assert(batches == opened.drop_last().push(filled));
        assert(batches.drop_last() =~= opened.drop_last());
        assert(batches.last() == filled);
        if needs_batch(earlier, last, max) {
            assert(opened.drop_last() =~= earlier);
        } else {
            assert(earlier[earlier.len() - 1] == earlier.last());
        }
        assert forall|i: int|
            #![trigger batches[i]]
            0 <= i < batches.len() implies 0 <= batches[i].byte_len <= max && batches[i].index
            == i by {
            if i < batches.len() - 1 {
                assert(batches[i] == earlier[i]);
            }
        }
        assert(Seq::new(filled.regions.len(), |i: int| unplaced(filled.regions[i])) =~= Seq::new(
            opened.last().regions.len(),
            |i: int| unplaced(opened.last().regions[i]),
        ).push(unplaced(last)));
        assert(batched_pieces(opened) =~= batched_pieces(earlier));
        assert(batched_pieces(batches) =~= batched_pieces(earlier).push(unplaced(last)));
        assert(Seq::new(pieces.len(), |k: int| unplaced(pieces[k])) =~= Seq::new(
            rest.len(),
            |k: int| unplaced(rest[k]),
        ).push(unplaced(last)));
    }
}

/// A readback plan hands every piece to exactly one batch, in order, and no batch is larger than
/// its budget.
pub proof fn law_batches_share_the_pieces_within_their_budget(
    revision: DocumentRevision,
    capture: CapturePlanModel,
    states: Seq<GpuMementoResidentState>,
    max: u64,
    plan: ReadbackPlanModel,
)
    requires
        readback_plan(revision, capture, states, max) == Ok::<
            ReadbackPlanModel,
            GpuMirrorPlanError,
        >(plan),
        forall|i: int|
            0 <= i < capture.regions.len() ==> region_holds_pixels(#[trigger] capture.regions[i]),
    ensures
        forall|i: int|
            #![trigger plan.batches[i]]
            0 <= i < plan.batches.len() ==> plan.batches[i].byte_len <= max
                && plan.batches[i].index == i,
        collected_pieces(capture.regions, states, max as int, states.len() as int) matches Ok(
            pieces,
        ) && batched_pieces(plan.batches) == Seq::new(
            pieces.len(),
            |k: int| unplaced(pieces[k]),
        ),
        plan.byte_len == batch_bytes(plan.batches),
{
    let pieces = collected_pieces(capture.regions, states, max as int, states.len() as int)->Ok_0;
    assert forall|k: int| 0 <= k < pieces.len() implies 0 <= (#[trigger] pieces[k]).spec_byte_len()
        <= max by {
        lemma_collected_fit(capture.regions, states, max as int, states.len() as int, k);
    }
    lemma_packed(capture.layout, revision, pieces, max as int);
}

} // verus!
