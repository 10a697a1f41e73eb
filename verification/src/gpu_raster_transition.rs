//! Both sides of a document change: the pixels before it and after it.

use crate::document::DocumentRevision;
use crate::gpu_atlas::LayerTileKey;
use crate::gpu_cpu_mirror::{
    region_models, GpuCpuMirrorSnapshot, GpuMirrorPatchBatch, GpuMirrorPatchRegion,
    MirrorModel, PatchRegionModel,
};
use crate::gpu_document_mirror::{GpuMirrorReadbackPlan, ReadbackPlanModel};
use crate::gpu_raster_recovery::{
    borrow_regions, build_fails_with, build_succeeds, copy_regions, exact_command, flat_regions,
    mirror_fault, region_fault, ExactCommandModel, GpuExactRasterRecoveryBuildError,
    GpuExactRasterRecoveryCommand, GpuExactRasterRecoveryMirrorError,
};
use crate::ordering::stable_sorted;
use crate::pixel_grid::{grid_index, lemma_grid_bound, lemma_grid_index};
use crate::raster::{LinearRgba, Rect, RectU32};
use std::sync::Arc;
use vstd::prelude::*;

verus! {

#[derive(Clone, Copy, Debug, PartialEq, Eq, Structural)]
pub enum GpuExactRasterRecoveryTransitionError {
    TileSizeMismatch { expected: u32, actual: u32 },
    After(GpuExactRasterRecoveryMirrorError),
    Before(GpuExactRasterRecoveryBuildError),
    ByteCountOverflow,
}

/// The exact pixels on both sides of one revision.
#[derive(Debug)]
pub struct GpuExactRasterRecoveryTransition {
    pub(crate) source_revision: DocumentRevision,
    pub(crate) revision: DocumentRevision,
    pub(crate) before: GpuExactRasterRecoveryCommand,
    pub(crate) after: GpuExactRasterRecoveryCommand,
    pub(crate) retained_byte_len: u64,
}

pub struct TransitionModel {
    pub source_revision: DocumentRevision,
    pub revision: DocumentRevision,
    pub before: ExactCommandModel,
    pub after: ExactCommandModel,
}

impl TransitionModel {
    pub open spec fn byte_len(self) -> int {
        self.before.retained_byte_len + self.after.retained_byte_len
    }
}

impl View for GpuExactRasterRecoveryTransition {
    type V = TransitionModel;

    open(crate) spec fn view(&self) -> TransitionModel {
        TransitionModel {
            source_revision: self.source_revision,
            revision: self.revision,
            before: self.before@,
            after: self.after@,
        }
    }
}

/// The pixels of a tile that lie in a rectangle, row by row.
pub open spec fn window(base: Seq<LinearRgba>, stride: int, bounds: Rect) -> Seq<LinearRgba> {
    Seq::new(
        bounds.area() as nat,
        |n: int|
            base[grid_index(
                stride,
                bounds.min_x + n % bounds.width(),
                bounds.min_y + n / bounds.width(),
            )],
    )
}

/// What stood where a region is written.
pub open spec fn region_before(
    tiles: Map<LayerTileKey, Seq<LinearRgba>>,
    stride: int,
    region: PatchRegionModel,
) -> PatchRegionModel {
    PatchRegionModel {
        key: region.key,
        bounds: region.bounds,
        initialized: tiles.contains_key(region.key),
        pixels: if tiles.contains_key(region.key) {
            window(tiles[region.key], stride, region.bounds)
        } else {
            Seq::empty()
        },
    }
}

pub open spec fn regions_before(
    tiles: Map<LayerTileKey, Seq<LinearRgba>>,
    stride: int,
    regions: Seq<GpuMirrorPatchRegion>,
) -> Seq<PatchRegionModel> {
    Seq::new(regions.len(), |i: int| region_before(tiles, stride, regions[i]@))
}

/// Copies the pixels of a tile that lie in a rectangle.
fn copy_window(base: &Vec<LinearRgba>, stride: u32, bounds: RectU32) -> (pixels: Vec<LinearRgba>)
    requires
        base@.len() == stride * stride,
        bounds@.max_x <= stride,
        bounds@.max_y <= stride,
    ensures
        pixels@ == window(base@, stride as int, bounds@),
{
    let min_x: u32 = bounds.min_x();
    let max_x: u32 = bounds.max_x();
    let min_y: u32 = bounds.min_y();
    let max_y: u32 = bounds.max_y();
    let len: usize = base.len();
    let ghost width = bounds@.width();
    let ghost target = window(base@, stride as int, bounds@);
    let mut pixels: Vec<LinearRgba> = Vec::new();
    let mut y: u32 = min_y;
    while y < max_y
        invariant
            bounds@.nonempty(),
            min_x == bounds@.min_x,
            max_x == bounds@.max_x,
            min_y == bounds@.min_y,
            max_y == bounds@.max_y,
            width == bounds@.width(),
            max_x <= stride,
            max_y <= stride,
            len == base@.len(),
            base@.len() == stride * stride,
            target == window(base@, stride as int, bounds@),
            min_y <= y <= max_y,
            pixels@.len() == (y - min_y) * width,
            forall|n: int| 0 <= n < pixels@.len() ==> #[trigger] pixels@[n] == target[n],
        decreases max_y - y,
    {
        let mut x: u32 = min_x;
        while x < max_x
            invariant
                bounds@.nonempty(),
                min_x == bounds@.min_x,
                max_x == bounds@.max_x,
                min_y == bounds@.min_y,
                max_y == bounds@.max_y,
                width == bounds@.width(),
                max_x <= stride,
                max_y <= stride,
                len == base@.len(),
                base@.len() == stride * stride,
                target == window(base@, stride as int, bounds@),
                min_y <= y < max_y,
                min_x <= x <= max_x,
                pixels@.len() == (y - min_y) * width + (x - min_x),
                forall|n: int| 0 <= n < pixels@.len() ==> #[trigger] pixels@[n] == target[n],
            decreases max_x - x,
        {
            proof {
                let n = grid_index(width, x - min_x, y - min_y);
                lemma_grid_index(width, x - min_x, y - min_y);
                lemma_grid_bound(width, bounds@.height(), x - min_x, y - min_y);
                lemma_grid_bound(stride as int, stride as int, x as int, y as int);
                assert(bounds@.height() * width == bounds@.area()) by (nonlinear_arith)
                    requires
                        bounds@.area() == bounds@.width() * bounds@.height(),
                        width == bounds@.width(),
                ;
                assert(target[n] == base@[grid_index(stride as int, x as int, y as int)]);
            }
            let index: usize = y as usize * stride as usize + x as usize;
            pixels.push(base[index]);
            x += 1;
        }
        proof {
            assert((y + 1 - min_y) * width == (y - min_y) * width + width) by (nonlinear_arith);
        }
        y += 1;
    }
    assert((max_y - min_y) * width == bounds@.area()) by (nonlinear_arith)
        requires
            bounds@.area() == bounds@.width() * bounds@.height(),
            width == bounds@.width(),
            max_y - min_y == bounds@.height(),
    ;
    assert(pixels@ =~= target);
    pixels
}

/// Reads from the snapshot what stood where the regions are written.
fn read_before(
    base: &GpuCpuMirrorSnapshot,
    tile_size: u32,
    regions: &Vec<GpuMirrorPatchRegion>,
) -> (earlier: Vec<GpuMirrorPatchRegion>)
    requires
        base.wf(),
        base@.geometry.tile_size == tile_size,
        forall|i: int|
            #![trigger regions@[i]]
            0 <= i < regions@.len() ==> regions@[i].local_bounds@.max_x <= tile_size
                && regions@[i].local_bounds@.max_y <= tile_size,
    ensures
        region_models(earlier@) == regions_before(base@.tiles, tile_size as int, regions@),
{
    let mut earlier: Vec<GpuMirrorPatchRegion> = Vec::new();
    let mut i: usize = 0;
    while i < regions.len()
        invariant
            base.wf(),
            base@.geometry.tile_size == tile_size,
            forall|i: int|
                #![trigger regions@[i]]
                0 <= i < regions@.len() ==> regions@[i].local_bounds@.max_x <= tile_size
                    && regions@[i].local_bounds@.max_y <= tile_size,
            i <= regions@.len(),
            earlier@.len() == i,
            forall|k: int|
                #![trigger earlier@[k]]
                0 <= k < i ==> earlier@[k]@ == region_before(
                    base@.tiles,
                    tile_size as int,
                    regions@[k]@,
                ),
        decreases regions@.len() - i,
    {
        let region = &regions[i];
        let (initialized, pixels) = match base.tile_pixels(region.key) {
            Some(tile) => (true, copy_window(tile, tile_size, region.local_bounds)),
            None => (false, Vec::new()),
        };
        earlier.push(
            GpuMirrorPatchRegion {
                key: region.key,
                local_bounds: region.local_bounds,
                initialized,
                pixels: Arc::new(pixels),
            },
        );
        i += 1;
    }
    assert(region_models(earlier@) =~= regions_before(base@.tiles, tile_size as int, regions@));
    earlier
}

/// Whether the command writes back what stood where the regions are written.
pub open spec fn command_before(
    tiles: Map<LayerTileKey, Seq<LinearRgba>>,
    tile_size: u32,
    regions: Seq<GpuMirrorPatchRegion>,
    command: ExactCommandModel,
) -> bool {
    exists|earlier: Seq<GpuMirrorPatchRegion>|
        {
            &&& region_models(earlier) == regions_before(tiles, tile_size as int, regions)
            &&& #[trigger] build_succeeds(tile_size, earlier)
            &&& command == exact_command(tile_size, earlier, earlier)
        }
}

/// Whether what stood where the regions are written makes no command.
pub open spec fn command_before_fails(
    tiles: Map<LayerTileKey, Seq<LinearRgba>>,
    tile_size: u32,
    regions: Seq<GpuMirrorPatchRegion>,
    error: GpuExactRasterRecoveryBuildError,
) -> bool {
    exists|earlier: Seq<GpuMirrorPatchRegion>|
        {
            &&& region_models(earlier) == regions_before(tiles, tile_size as int, regions)
            &&& #[trigger] build_fails_with(tile_size, earlier, error)
        }
}

/// What a revision read back, paired with what stood there before.
pub open(crate) spec fn transition_built(
    base: MirrorModel,
    plan: ReadbackPlanModel,
    batches: Seq<GpuMirrorPatchBatch>,
    transition: TransitionModel,
) -> bool {
    let tile_size = plan.layout@.tile_size as u32;
    let arrived = flat_regions(batches);
    let ordered = flat_regions(stable_sorted(batches));
    &&& base.geometry.tile_size == tile_size
    &&& mirror_fault(plan, batches) is None
    &&& build_succeeds(tile_size, arrived)
    &&& transition.source_revision == base.revision
    &&& transition.revision == plan.revision
    &&& transition.after == exact_command(tile_size, arrived, ordered)
    &&& command_before(base.tiles, tile_size, arrived, transition.before)
}

/// Why there is no such pair.
pub open(crate) spec fn transition_fails(
    base: MirrorModel,
    plan: ReadbackPlanModel,
    batches: Seq<GpuMirrorPatchBatch>,
    error: GpuExactRasterRecoveryTransitionError,
) -> bool {
    let tile_size = plan.layout@.tile_size as u32;
    let arrived = flat_regions(batches);
    let ordered = flat_regions(stable_sorted(batches));
    match error {
        GpuExactRasterRecoveryTransitionError::TileSizeMismatch { expected, actual } => {
            &&& expected == tile_size
            &&& actual == base.geometry.tile_size
            &&& expected != actual
        },
        GpuExactRasterRecoveryTransitionError::After(error) => {
            &&& base.geometry.tile_size == tile_size
            &&& match mirror_fault(plan, batches) {
                Some(fault) => error == fault,
                None => {
                    &&& error matches GpuExactRasterRecoveryMirrorError::Command(fault)
                    &&& build_fails_with(tile_size, arrived, fault)
                },
            }
        },
        GpuExactRasterRecoveryTransitionError::Before(error) => {
            &&& base.geometry.tile_size == tile_size
            &&& mirror_fault(plan, batches) is None
            &&& build_succeeds(tile_size, arrived)
            &&& command_before_fails(base.tiles, tile_size, arrived, error)
        },
        GpuExactRasterRecoveryTransitionError::ByteCountOverflow => {
            &&& base.geometry.tile_size == tile_size
            &&& mirror_fault(plan, batches) is None
            &&& build_succeeds(tile_size, arrived)
            &&& exists|before: ExactCommandModel|
                {
                    &&& #[trigger] command_before(base.tiles, tile_size, arrived, before)
                    &&& before.retained_byte_len + exact_command(
                        tile_size,
                        arrived,
                        ordered,
                    ).retained_byte_len > u64::MAX
                }
        },
    }
}

impl GpuExactRasterRecoveryTransition {
    pub open(crate) spec fn wf(self) -> bool {
        &&& self.before.wf()
        &&& self.after.wf()
        &&& self.retained_byte_len == self@.byte_len()
    }

    /// Pairs what a revision read back with what the snapshot held there before.
    pub fn from_mirror_revision(
        base: &GpuCpuMirrorSnapshot,
        plan: &GpuMirrorReadbackPlan,
        batches: Vec<GpuMirrorPatchBatch>,
    ) -> (transition: Result<
        GpuExactRasterRecoveryTransition,
        GpuExactRasterRecoveryTransitionError,
    >)
        requires
            base.wf(),
        ensures
            match transition {
                Ok(transition) => transition.wf() && transition_built(
                    base@,
                    plan@,
                    batches@,
                    transition@,
                ),
                Err(error) => transition_fails(base@, plan@, batches@, error),
            },
    {
        let tile_size: u32 = plan.layout().tile_size();
        if base.tile_size() != tile_size {
            return Err(
                GpuExactRasterRecoveryTransitionError::TileSizeMismatch {
                    expected: tile_size,
                    actual: base.tile_size(),
                },
            );
        }
        let ghost arrived = flat_regions(batches@);
        let borrows = borrow_regions(&batches);
        let regions = copy_regions(&borrows);
        let after = match GpuExactRasterRecoveryCommand::from_mirror_revision(plan, batches) {
            Ok(after) => after,
            Err(failure) => {
                return Err(GpuExactRasterRecoveryTransitionError::After(failure.error));
            },
        };
        proof {
            assert forall|i: int|
                #![trigger regions@[i]]
                0 <= i < regions@.len() implies regions@[i].local_bounds@.max_x <= tile_size
                && regions@[i].local_bounds@.max_y <= tile_size by {
                assert(region_fault(tile_size, arrived, i) is None);
            }
        }
        let earlier = read_before(base, tile_size, &regions);
        let before = match GpuExactRasterRecoveryCommand::from_regions(tile_size, earlier) {
            Ok(before) => before,
            Err(failure) => {
                assert(command_before_fails(base@.tiles, tile_size, arrived, failure.error));
                return Err(GpuExactRasterRecoveryTransitionError::Before(failure.error));
            },
        };
        assert(command_before(base@.tiles, tile_size, arrived, before@));
        match before.retained_byte_len().checked_add(after.retained_byte_len()) {
            Some(retained_byte_len) => Ok(
                GpuExactRasterRecoveryTransition {
                    source_revision: base.revision(),
                    revision: plan.revision(),
                    before,
                    after,
                    retained_byte_len,
                },
            ),
            None => Err(GpuExactRasterRecoveryTransitionError::ByteCountOverflow),
        }
    }

    pub fn source_revision(&self) -> (revision: DocumentRevision)
        ensures
            revision == self@.source_revision,
    {
        self.source_revision
    }

    pub fn revision(&self) -> (revision: DocumentRevision)
        ensures
            revision == self@.revision,
    {
        self.revision
    }

    /// The command that goes back.
    pub fn before(&self) -> (command: &GpuExactRasterRecoveryCommand)
        ensures
            command@ == self@.before,
            self.wf() ==> command.wf(),
    {
        &self.before
    }

    /// The command that goes forward.
    pub fn after(&self) -> (command: &GpuExactRasterRecoveryCommand)
        ensures
            command@ == self@.after,
            self.wf() ==> command.wf(),
    {
        &self.after
    }

    pub fn retained_byte_len(&self) -> (len: u64)
        requires
            self.wf(),
        ensures
            len == self@.byte_len(),
    {
        self.retained_byte_len
    }
}

} // verus!
