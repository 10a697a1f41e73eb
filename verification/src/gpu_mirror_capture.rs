//! Reads a captured revision back from the device, one batch at a time.

use crate::device::DeviceLimits;
use crate::document::DocumentRevision;
use crate::gpu_atlas::{AtlasLayout, AtlasSlot, LayerTileKey};
use crate::gpu_cpu_mirror::{
    region_models, GpuMirrorPatchBatch, GpuMirrorPatchRegion, PatchBatchModel, PatchRegionModel,
};
use crate::gpu_document_mirror::{
    batch_bytes, batch_models, BatchPlanModel, GpuMirrorBatchPlan, GpuMirrorCopyRegion,
    GpuMirrorReadbackPlan, ReadbackPlanModel,
};
use crate::gpu_document_target::{GpuDocumentTarget, TargetModel};
use crate::keyed_map::Key;
use crate::raster::LinearRgba;
use crate::shared::share;
use std::sync::Arc;
use vstd::prelude::*;

verus! {

/// What the device says of a mapped buffer that cannot be read.
#[derive(Clone, Debug, PartialEq, Eq)]
pub struct MapRangeError {
    pub(crate) text: Arc<String>,
}

impl View for MapRangeError {
    type V = Seq<char>;

    open(crate) spec fn view(&self) -> Seq<char> {
        self.text@
    }
}

impl MapRangeError {
    pub fn new(text: String) -> (error: MapRangeError)
        ensures
            error@ == text@,
    {
        MapRangeError { text: Arc::new(text) }
    }

    /// A second owner of the text.
    pub fn duplicate(&self) -> (copy: MapRangeError)
        ensures
            copy == *self,
    {
        MapRangeError { text: share(&self.text) }
    }
}

#[derive(Clone, Debug, PartialEq, Eq)]
#[allow(inconsistent_fields)]
pub enum GpuMirrorReadbackError {
    LayoutMismatch { expected: AtlasLayout, actual: AtlasLayout },
    BufferTooLarge { requested: u64, maximum: u64 },
    ResidentMismatch {
        slot: AtlasSlot,
        expected: Option<LayerTileKey>,
        actual: Option<LayerTileKey>,
    },
    MissingColorPage(u32),
    EmptyRevisionPlan,
    CaptureAlreadySubmitted,
    CaptureNotSubmitted,
    ReadbackAlreadyPrepared,
    NoReadbackPrepared,
    ReadbackNotSubmitted,
    ReadbackAlreadySubmitted,
    CannotDiscardSubmittedReadback,
    MapAlreadyStarted,
    MapNotStarted,
    MapAlreadyFinished,
    /// The device could not map the buffer.
    MapFailed,
    MapChannelDisconnected,
    /// The mapped buffer could not be read.
    BufferAccess(MapRangeError),
    InvalidMappedRegion,
}

/// What has become of the mapping of a staging buffer.
#[derive(Clone, Copy, Debug)]
pub enum GpuMirrorMapEvent<'a> {
    Pending,
    Disconnected,
    Failed,
    Unreadable(&'a MapRangeError),
    Mapped(&'a [u8]),
}

/// How far the mapping of a staging buffer has come.
#[derive(Clone, Copy, Debug, PartialEq, Eq, Structural)]
pub enum ReadbackMapState {
    NotStarted,
    Waiting,
    /// The batch has no pixels, so there is nothing to map.
    MetadataReady,
    Finished,
}

#[derive(Debug)]
pub(crate) struct PendingGpuMirrorReadback {
    pub(crate) plan: GpuMirrorBatchPlan,
    pub(crate) map_state: ReadbackMapState,
}

/// The batches of one revision, from their capture until all of them have been read back.
#[derive(Debug)]
pub struct GpuMirrorRevisionCapture {
    pub(crate) revision: DocumentRevision,
    pub(crate) byte_len: u64,
    pub(crate) block_count: u32,
    pub(crate) remaining_byte_len: u64,
    pub(crate) capture_submitted: bool,
    pub(crate) queued: Vec<GpuMirrorBatchPlan>,
    pub(crate) active: Option<PendingGpuMirrorReadback>,
    pub(crate) active_submitted: bool,
}

pub struct ActiveReadbackModel {
    pub plan: BatchPlanModel,
    pub state: ReadbackMapState,
    pub submitted: bool,
}

pub struct CaptureModel {
    pub revision: DocumentRevision,
    pub byte_len: int,
    pub block_count: int,
    pub remaining: int,
    pub submitted: bool,
    pub queued: Seq<BatchPlanModel>,
    pub active: Option<ActiveReadbackModel>,
}

impl View for GpuMirrorRevisionCapture {
    type V = CaptureModel;

    open(crate) spec fn view(&self) -> CaptureModel {
        CaptureModel {
            revision: self.revision,
            byte_len: self.byte_len as int,
            block_count: self.block_count as int,
            remaining: self.remaining_byte_len as int,
            submitted: self.capture_submitted,
            queued: batch_models(self.queued@),
            active: match self.active {
                Some(active) => Some(
                    ActiveReadbackModel {
                        plan: active.plan@,
                        state: active.map_state,
                        submitted: self.active_submitted,
                    },
                ),
                None => None,
            },
        }
    }
}

impl CaptureModel {
    pub open spec fn staging(self) -> int {
        match self.active {
            Some(active) => active.plan.byte_len,
            None => 0,
        }
    }

    pub open spec fn complete(self) -> bool {
        self.queued.len() == 0 && self.active is None
    }

    /// What is still to be read back is what the queue and the active batch hold,
    /// and a mapping has started only of a batch that was submitted.
    pub open spec fn valid(self) -> bool {
        &&& self.remaining == batch_bytes(self.queued) + self.staging()
        &&& self.staging() >= 0
        &&& match self.active {
            Some(active) => {
                &&& self.submitted
                &&& active.submitted || active.state == ReadbackMapState::NotStarted
                &&& active.state == ReadbackMapState::Waiting ==> active.plan.byte_len > 0
                &&& active.state == ReadbackMapState::MetadataReady ==> active.plan.byte_len == 0
            },
            None => true,
        }
    }

    pub open spec fn with_state(self, state: ReadbackMapState) -> CaptureModel {
        CaptureModel {
            active: match self.active {
                Some(active) => Some(ActiveReadbackModel { state, ..active }),
                None => None,
            },
            ..self
        }
    }

    /// The capture once its active batch has been read back.
    pub open spec fn finished(self) -> CaptureModel {
        CaptureModel { active: None, remaining: self.remaining - self.staging(), ..self }
    }
}

/// Why a readback that should be mapped is not there, if it is not.
pub open spec fn mapping_error(capture: CaptureModel) -> Option<GpuMirrorReadbackError> {
    match capture.active {
        Some(active) => if active.submitted {
            None
        } else {
            Some(GpuMirrorReadbackError::ReadbackNotSubmitted)
        },
        None => Some(GpuMirrorReadbackError::NoReadbackPrepared),
    }
}

/// Why no pixels can be taken from the active batch, if they cannot.
pub open spec fn finish_error(capture: CaptureModel, event: GpuMirrorMapEvent) -> Option<
    GpuMirrorReadbackError,
> {
    match mapping_error(capture) {
        Some(error) => Some(error),
        None => match capture.active->0.state {
            ReadbackMapState::NotStarted => Some(GpuMirrorReadbackError::MapNotStarted),
            ReadbackMapState::MetadataReady => None,
            ReadbackMapState::Finished => Some(GpuMirrorReadbackError::MapAlreadyFinished),
            ReadbackMapState::Waiting => match event {
                GpuMirrorMapEvent::Disconnected => Some(
                    GpuMirrorReadbackError::MapChannelDisconnected,
                ),
                GpuMirrorMapEvent::Failed => Some(GpuMirrorReadbackError::MapFailed),
                GpuMirrorMapEvent::Unreadable(error) => Some(
                    GpuMirrorReadbackError::BufferAccess(*error),
                ),
                GpuMirrorMapEvent::Pending => None,
                GpuMirrorMapEvent::Mapped(_) => None,
            },
        },
    }
}

/// The capture after such an error: a mapping that failed is over.
pub open spec fn after_finish_error(
    capture: CaptureModel,
    error: GpuMirrorReadbackError,
) -> CaptureModel {
    if error is MapFailed || error is BufferAccess {
        capture.with_state(ReadbackMapState::Finished)
    } else {
        capture
    }
}

/// The bytes that an active batch is read from.
pub open spec fn mapped_bytes(capture: CaptureModel, event: GpuMirrorMapEvent) -> Seq<u8> {
    match capture.active->0.state {
        ReadbackMapState::MetadataReady => Seq::empty(),
        _ => event->Mapped_0@,
    }
}

/// Four bytes as one number, with the least significant byte first or last.
pub open spec fn word_at(bytes: Seq<u8>, at: int, little: bool) -> int {
    if little {
        bytes[at] + 256 * bytes[at + 1] + 65536 * bytes[at + 2] + 16777216 * bytes[at + 3]
    } else {
        bytes[at + 3] + 256 * bytes[at + 2] + 65536 * bytes[at + 1] + 16777216 * bytes[at]
    }
}

pub open spec fn words_read(bytes: Seq<u8>, words: Seq<[u32; 4]>, little: bool) -> bool {
    &&& bytes.len() == 16 * words.len()
    &&& forall|i: int, c: int|
        #![trigger words[i][c]]
        0 <= i < words.len() && 0 <= c < 4 ==> words[i][c] == word_at(
            bytes,
            16 * i + 4 * c,
            little,
        )
}

/// The words are those of the bytes, in the byte order of the machine.
pub open spec fn words_of(bytes: Seq<u8>, words: Seq<[u32; 4]>) -> bool {
    words_read(bytes, words, true) || words_read(bytes, words, false)
}

pub open spec fn pixel_of(words: [u32; 4]) -> LinearRgba {
    LinearRgba { r: words[0], g: words[1], b: words[2], a: words[3] }
}

pub open spec fn pixels_of(words: Seq<[u32; 4]>) -> Seq<LinearRgba> {
    Seq::new(words.len(), |i: int| pixel_of(words[i]))
}

/// What the words of a region make of it. There are no words where the region
/// has none, or where they could not be had.
pub open spec fn decoded_region(
    region: GpuMirrorCopyRegion,
    words: Option<Seq<[u32; 4]>>,
) -> Option<PatchRegionModel> {
    if region.initialized {
        match words {
            Some(words) => if words.len() == region.local_bounds@.area() {
                Some(
                    PatchRegionModel {
                        key: region.key,
                        bounds: region.local_bounds@,
                        initialized: true,
                        pixels: pixels_of(words),
                    },
                )
            } else {
                None
            },
            None => None,
        }
    } else {
        Some(
            PatchRegionModel {
                key: region.key,
                bounds: region.local_bounds@,
                initialized: false,
                pixels: Seq::empty(),
            },
        )
    }
}

/// The words lie where the region says in what was mapped.
pub open spec fn region_words(
    region: GpuMirrorCopyRegion,
    mapped: Seq<u8>,
    words: Seq<[u32; 4]>,
) -> bool {
    match region.buffer_offset {
        Some(offset) => {
            &&& offset + region.spec_byte_len() <= mapped.len()
            &&& words_of(
                mapped.subrange(offset as int, offset + region.spec_byte_len()),
                words,
            )
        },
        None => false,
    }
}

/// A patch that was read from the mapped bytes.
pub open spec fn region_read(
    region: GpuMirrorCopyRegion,
    mapped: Seq<u8>,
    patch: PatchRegionModel,
) -> bool {
    if region.initialized {
        exists|words: Seq<[u32; 4]>| #[trigger]
            region_words(region, mapped, words) && decoded_region(region, Some(words)) == Some(
                patch,
            )
    } else {
        decoded_region(region, None) == Some(patch)
    }
}

/// Every patch was read from the mapped bytes.
pub open spec fn regions_read(
    regions: Seq<GpuMirrorCopyRegion>,
    mapped: Seq<u8>,
    patches: Seq<PatchRegionModel>,
) -> bool {
    &&& patches.len() == regions.len()
    &&& forall|i: int|
        0 <= i < regions.len() ==> region_read(regions[i], mapped, #[trigger] patches[i])
}

/// The patches of a batch, as they were read from the mapped bytes.
pub open spec fn batch_read(plan: BatchPlanModel, mapped: Seq<u8>, batch: PatchBatchModel) -> bool {
    &&& batch.revision == plan.revision
    &&& batch.index == plan.index
    &&& batch.byte_len == plan.byte_len
    &&& regions_read(plan.regions, mapped, batch.regions)
}

/// `bytemuck::try_cast_slice` from bytes to groups of four words. It hands the
/// bytes out as words in the byte order of the machine, and only where they make
/// whole groups. Whether it does so then rests on where the bytes lie in memory,
/// so nothing is said of when it succeeds.
#[verifier::external_body]
fn cast_words(bytes: &[u8]) -> (words: Option<Vec<[u32; 4]>>)
    ensures
        words matches Some(words) ==> words_of(bytes@, words@),
{
    bytemuck::try_cast_slice::<u8, [u32; 4]>(bytes).ok().map(|words| words.to_vec())
}

/// Makes a patch of the words of a region.
pub fn decode_region(region: GpuMirrorCopyRegion, words: Option<Vec<[u32; 4]>>) -> (patch: Result<
    GpuMirrorPatchRegion,
    GpuMirrorReadbackError,
>)
    ensures
        match patch {
            Ok(patch) => decoded_region(
                region,
                match words {
                    Some(words) => Some(words@),
                    None => None,
                },
            ) == Some(patch@) && patch.local_bounds == region.local_bounds,
            Err(error) => error == GpuMirrorReadbackError::InvalidMappedRegion && decoded_region(
                region,
                match words {
                    Some(words) => Some(words@),
                    None => None,
                },
            ) is None,
        },
{
    let mut pixels: Vec<LinearRgba> = Vec::new();
    if region.initialized {
        let words = match words {
            Some(words) => words,
            None => {
                return Err(GpuMirrorReadbackError::InvalidMappedRegion);
            },
        };
        if words.len() as u64 != region.local_bounds.area() {
            return Err(GpuMirrorReadbackError::InvalidMappedRegion);
        }
        let mut i: usize = 0;
        while i < words.len()
            invariant
                i <= words@.len(),
                pixels@ == pixels_of(words@).subrange(0, i as int),
            decreases words@.len() - i,
        {
            let word = words[i];
            pixels.push(LinearRgba::from_bits(word[0], word[1], word[2], word[3]));
            i += 1;
            assert(pixels@ =~= pixels_of(words@).subrange(0, i as int));
        }
        assert(pixels@ =~= pixels_of(words@));
    }
    Ok(
        GpuMirrorPatchRegion {
            key: region.key,
            local_bounds: region.local_bounds,
            initialized: region.initialized,
            pixels: Arc::new(pixels),
        },
    )
}

/// The words of one region, as far as they can be had.
fn words_in(region: GpuMirrorCopyRegion, mapped: &[u8]) -> (words: Option<Vec<[u32; 4]>>)
    ensures
        words matches Some(words) ==> region_words(region, mapped@, words@),
{
    let offset = match region.buffer_offset {
        Some(offset) => offset,
        None => {
            return None;
        },
    };
    let byte_len: u64 = region.byte_len();
    let total: u64 = mapped.len() as u64;
    if offset > total || byte_len > total - offset {
        return None;
    }
    cast_words(
        vstd::slice::slice_subrange(mapped, offset as usize, (offset + byte_len) as usize),
    )
}

/// Takes the patches of a batch out of the mapped bytes.
pub fn decode_regions(plan: &GpuMirrorBatchPlan, mapped: &[u8]) -> (patches: Result<
    Vec<GpuMirrorPatchRegion>,
    GpuMirrorReadbackError,
>)
    ensures
        match patches {
            Ok(patches) => regions_read(plan@.regions, mapped@, region_models(patches@)),
            Err(error) => error == GpuMirrorReadbackError::InvalidMappedRegion && exists|i: int|
                0 <= i < plan@.regions.len() && (#[trigger] plan@.regions[i]).initialized,
        },
{
    let mut patches: Vec<GpuMirrorPatchRegion> = Vec::new();
    let mut i: usize = 0;
    while i < plan.regions.len()
        invariant
            i <= plan.regions@.len(),
            patches@.len() == i,
            forall|k: int|
                0 <= k < i ==> region_read(
                    plan.regions@[k],
                    mapped@,
                    (#[trigger] patches@[k])@,
                ),
        decreases plan.regions@.len() - i,
    {
        let region = plan.regions[i];
        let words = if region.initialized {
            words_in(region, mapped)
        } else {
            None
        };
        let ghost found = words;
        match decode_region(region, words) {
            Ok(patch) => {
                proof {
                    if region.initialized {
                        let words = found->0@;
                        assert(region_words(region, mapped@, words));
                    }
                    assert(region_read(region, mapped@, patch@));
                }
                patches.push(patch);
            },
            Err(error) => {
                assert(plan@.regions[i as int].initialized);
                return Err(error);
            },
        }
        i += 1;
    }
    Ok(patches)
}

/// Why the device does not hold what a region reads back, if it does not.
pub open spec fn region_fault(target: TargetModel, region: GpuMirrorCopyRegion) -> Option<
    GpuMirrorReadbackError,
> {
    let expected = if region.initialized {
        Some(region.key)
    } else {
        None
    };
    let actual = if target.residents.contains_key(region.slot) {
        Some(target.residents[region.slot])
    } else {
        None
    };
    if actual != expected {
        Some(GpuMirrorReadbackError::ResidentMismatch { slot: region.slot, expected, actual })
    } else if region.initialized && region.slot.page.0 >= target.pages {
        Some(GpuMirrorReadbackError::MissingColorPage(region.slot.page.0))
    } else {
        None
    }
}

/// The fault of the first region that has one.
pub open spec fn regions_fault(target: TargetModel, regions: Seq<GpuMirrorCopyRegion>) -> Option<
    GpuMirrorReadbackError,
>
    decreases regions.len(),
{
    if regions.len() == 0 {
        None
    } else {
        match regions_fault(target, regions.drop_last()) {
            Some(error) => Some(error),
            None => region_fault(target, regions.last()),
        }
    }
}

/// Why a batch cannot be captured, if it cannot.
pub open spec fn batch_fault(
    target: TargetModel,
    limits: DeviceLimits,
    batch: BatchPlanModel,
) -> Option<GpuMirrorReadbackError> {
    if batch.layout != target.layout {
        Some(
            GpuMirrorReadbackError::LayoutMismatch {
                expected: target.layout,
                actual: batch.layout,
            },
        )
    } else if batch.byte_len > limits.max_buffer_size {
        Some(
            GpuMirrorReadbackError::BufferTooLarge {
                requested: batch.byte_len as u64,
                maximum: limits.max_buffer_size,
            },
        )
    } else {
        regions_fault(target, batch.regions)
    }
}

/// The fault of the first batch that has one.
pub open spec fn batches_fault(
    target: TargetModel,
    limits: DeviceLimits,
    batches: Seq<BatchPlanModel>,
) -> Option<GpuMirrorReadbackError>
    decreases batches.len(),
{
    if batches.len() == 0 {
        None
    } else {
        match batches_fault(target, limits, batches.drop_last()) {
            Some(error) => Some(error),
            None => batch_fault(target, limits, batches.last()),
        }
    }
}

/// Why a revision cannot be captured, if it cannot.
pub open spec fn capture_error(
    target: TargetModel,
    limits: DeviceLimits,
    plan: ReadbackPlanModel,
) -> Option<GpuMirrorReadbackError> {
    if plan.batches.len() == 0 {
        Some(GpuMirrorReadbackError::EmptyRevisionPlan)
    } else {
        batches_fault(target, limits, plan.batches)
    }
}

/// A fresh capture of everything that the plan reads back.
pub open spec fn captured(plan: ReadbackPlanModel) -> CaptureModel {
    CaptureModel {
        revision: plan.revision,
        byte_len: plan.byte_len,
        block_count: plan.block_count,
        remaining: plan.byte_len,
        submitted: false,
        queued: plan.batches,
        active: None,
    }
}

/// A capture of which nothing has been taken yet, and which holds what the plan says.
pub open spec fn capture_matches(capture: CaptureModel, plan: ReadbackPlanModel) -> bool {
    capture == CaptureModel { submitted: capture.submitted, ..captured(plan) }
}

proof fn lemma_regions_fault(target: TargetModel, regions: Seq<GpuMirrorCopyRegion>, n: int)
    requires
        0 <= n <= regions.len(),
        regions_fault(target, regions.subrange(0, n)) is Some,
    ensures
        regions_fault(target, regions) == regions_fault(target, regions.subrange(0, n)),
    decreases regions.len() - n,
{
    if n == regions.len() {
        assert(regions.subrange(0, n) =~= regions);
    } else {
        assert(regions.subrange(0, n + 1).drop_last() =~= regions.subrange(0, n));
        lemma_regions_fault(target, regions, n + 1);
    }
}

proof fn lemma_batches_fault(
    target: TargetModel,
    limits: DeviceLimits,
    batches: Seq<BatchPlanModel>,
    n: int,
)
    requires
        0 <= n <= batches.len(),
        batches_fault(target, limits, batches.subrange(0, n)) is Some,
    ensures
        batches_fault(target, limits, batches) == batches_fault(
            target,
            limits,
            batches.subrange(0, n),
        ),
    decreases batches.len() - n,
{
    if n == batches.len() {
        assert(batches.subrange(0, n) =~= batches);
    } else {
        assert(batches.subrange(0, n + 1).drop_last() =~= batches.subrange(0, n));
        lemma_batches_fault(target, limits, batches, n + 1);
    }
}

/// The first batch can be counted first.
pub(crate) proof fn lemma_front_bytes(batches: Seq<BatchPlanModel>)
    requires
        batches.len() > 0,
    ensures
        batch_bytes(batches) == batches[0].byte_len + batch_bytes(batches.drop_first()),
    decreases batches.len(),
{
    if batches.len() > 1 {
        lemma_front_bytes(batches.drop_last());
        assert(batches.drop_last().drop_first() =~= batches.drop_first().drop_last());
        assert(batches.drop_first().last() == batches.last());
    } else {
        assert(batches.drop_first() =~= Seq::empty());
        assert(batches.drop_last() =~= Seq::empty());
    }
}

fn validate_gpu_mirror_batch(
    target: &GpuDocumentTarget,
    limits: DeviceLimits,
    plan: &GpuMirrorBatchPlan,
) -> (checked: Result<(), GpuMirrorReadbackError>)
    requires
        target.wf(),
    ensures
        match checked {
            Ok(_) => batch_fault(target@, limits, plan@) is None,
            Err(error) => batch_fault(target@, limits, plan@) == Some(error),
        },
{
    if !plan.layout.same(target.layout()) {
        return Err(
            GpuMirrorReadbackError::LayoutMismatch {
                expected: target.layout(),
                actual: plan.layout,
            },
        );
    }
    if plan.byte_len > limits.max_buffer_size {
        return Err(
            GpuMirrorReadbackError::BufferTooLarge {
                requested: plan.byte_len,
                maximum: limits.max_buffer_size,
            },
        );
    }
    let mut i: usize = 0;
    assert(plan.regions@.subrange(0, 0) =~= Seq::empty());
    while i < plan.regions.len()
        invariant
            target.wf(),
            i <= plan.regions@.len(),
            regions_fault(target@, plan.regions@.subrange(0, i as int)) is None,
            batch_fault(target@, limits, plan@) == regions_fault(target@, plan.regions@),
        decreases plan.regions@.len() - i,
    {
        let region = plan.regions[i];
        let expected = if region.initialized {
            Some(region.key)
        } else {
            None
        };
        let actual = target.initialized_resident(region.slot);
        proof {
            assert(plan.regions@.subrange(0, i as int + 1).drop_last() =~= plan.regions@.subrange(
                0,
                i as int,
            ));
            if region_fault(target@, region) is Some {
                lemma_regions_fault(target@, plan.regions@, i as int + 1);
            }
        }
        let same = match (actual, expected) {
            (Some(actual), Some(expected)) => actual.same(expected),
            (None, None) => true,
            _ => false,
        };
        if !same {
            return Err(
                GpuMirrorReadbackError::ResidentMismatch { slot: region.slot, expected, actual },
            );
        }
        if region.initialized && region.slot.page().get() as u64 >= target.retained_page_count() as u64 {
            return Err(GpuMirrorReadbackError::MissingColorPage(region.slot.page().get()));
        }
        i += 1;
    }
    assert(plan.regions@.subrange(0, i as int) =~= plan.regions@);
    Ok(())
}

/// Captures everything that the plan reads back, if the device holds all of it.
pub fn encode_gpu_mirror_revision_capture(
    target: &GpuDocumentTarget,
    limits: DeviceLimits,
    plan: &GpuMirrorReadbackPlan,
) -> (capture: Result<GpuMirrorRevisionCapture, GpuMirrorReadbackError>)
    requires
        target.wf(),
        plan.wf(),
    ensures
        match capture {
            Ok(capture) => {
                &&& capture_error(target@, limits, plan@) is None
                &&& capture.wf()
                &&& capture@ == captured(plan@)
            },
            Err(error) => capture_error(target@, limits, plan@) == Some(error),
        },
{
    if plan.batches.len() == 0 {
        return Err(GpuMirrorReadbackError::EmptyRevisionPlan);
    }
    let ghost batches = plan@.batches;
    let mut queued: Vec<GpuMirrorBatchPlan> = Vec::new();
    let mut i: usize = 0;
    assert(batches.subrange(0, 0) =~= Seq::empty());
    while i < plan.batches.len()
        invariant
            target.wf(),
            batches == batch_models(plan.batches@),
            capture_error(target@, limits, plan@) == batches_fault(target@, limits, batches),
            i <= plan.batches@.len(),
            batches_fault(target@, limits, batches.subrange(0, i as int)) is None,
        decreases plan.batches@.len() - i,
    {
        let batch = &plan.batches[i];
        proof {
            assert(batches.subrange(0, i as int + 1).drop_last() =~= batches.subrange(0, i as int));
            if batch_fault(target@, limits, batch@) is Some {
                lemma_batches_fault(target@, limits, batches, i as int + 1);
            }
        }
        match validate_gpu_mirror_batch(target, limits, batch) {
            Ok(_) => {},
            Err(error) => {
                return Err(error);
            },
        }
        i += 1;
    }
    assert(batches.subrange(0, i as int) =~= batches);
    let mut i: usize = 0;
    while i < plan.batches.len()
        invariant
            batches == batch_models(plan.batches@),
            i <= plan.batches@.len(),
            queued@.len() == i,
            forall|k: int| 0 <= k < i ==> (#[trigger] queued@[k])@ == plan.batches@[k]@,
        decreases plan.batches@.len() - i,
    {
        queued.push(plan.batches[i].duplicate());
        i += 1;
    }
    assert(batch_models(queued@) =~= batches);
    Ok(
        GpuMirrorRevisionCapture {
            revision: plan.revision,
            byte_len: plan.byte_len,
            block_count: plan.block_count,
            remaining_byte_len: plan.byte_len,
            capture_submitted: false,
            queued,
            active: None,
            active_submitted: false,
        },
    )
}

fn regions_equal(first: GpuMirrorCopyRegion, second: GpuMirrorCopyRegion) -> (equal: bool)
    ensures
        equal == (first == second),
{
    let same_offset = match (first.buffer_offset, second.buffer_offset) {
        (Some(a), Some(b)) => a == b,
        (None, None) => true,
        _ => false,
    };
    let equal = same_offset && first.key.same(second.key) && first.slot.same(second.slot)
        && first.local_bounds.same(second.local_bounds) && first.physical_origin[0]
        == second.physical_origin[0] && first.physical_origin[1] == second.physical_origin[1]
        && first.extent[0] == second.extent[0] && first.extent[1] == second.extent[1]
        && first.initialized == second.initialized && first.bytes_per_row == second.bytes_per_row
        && first.block_count == second.block_count;
    proof {
        if equal {
            assert(first.physical_origin =~= second.physical_origin);
            assert(first.extent =~= second.extent);
        }
    }
    equal
}

fn batches_equal(first: &GpuMirrorBatchPlan, second: &GpuMirrorBatchPlan) -> (equal: bool)
    ensures
        equal == (first@ == second@),
{
    if !first.layout.same(second.layout) || first.revision.0 != second.revision.0 || first.index
        != second.index || first.byte_len != second.byte_len || first.block_count
        != second.block_count || first.regions.len() != second.regions.len() {
        return false;
    }
    let mut i: usize = 0;
    while i < first.regions.len()
        invariant
            i <= first.regions@.len(),
            first.regions@.len() == second.regions@.len(),
            forall|k: int| 0 <= k < i ==> first.regions@[k] == second.regions@[k],
        decreases first.regions@.len() - i,
    {
        if !regions_equal(first.regions[i], second.regions[i]) {
            assert(first@.regions[i as int] != second@.regions[i as int]);
            return false;
        }
        i += 1;
    }
    assert(first@.regions =~= second@.regions);
    true
}

impl GpuMirrorRevisionCapture {
    pub open(crate) spec fn wf(self) -> bool {
        self@.valid() && (self.active is None ==> !self.active_submitted)
    }

    pub fn revision(&self) -> (revision: DocumentRevision)
        ensures
            revision == self@.revision,
    {
        self.revision
    }

    pub fn byte_len(&self) -> (len: u64)
        ensures
            len == self@.byte_len,
    {
        self.byte_len
    }

    pub fn block_count(&self) -> (count: u32)
        ensures
            count == self@.block_count,
    {
        self.block_count
    }

    pub fn remaining_byte_len(&self) -> (len: u64)
        ensures
            len == self@.remaining,
    {
        self.remaining_byte_len
    }

    /// How many batches have not been read back. The count of a queue that fills
    /// the address space stays at its largest value.
    pub fn remaining_batch_count(&self) -> (count: usize)
        ensures
            count == if self@.active is Some && self@.queued.len() < usize::MAX {
                self@.queued.len() + 1
            } else {
                self@.queued.len()
            },
    {
        if self.active.is_some() && self.queued.len() < usize::MAX {
            self.queued.len() + 1
        } else {
            self.queued.len()
        }
    }

    pub fn staging_byte_len(&self) -> (len: u64)
        ensures
            len == self@.staging(),
    {
        match &self.active {
            Some(active) => active.plan.byte_len,
            None => 0,
        }
    }

    pub fn is_complete(&self) -> (complete: bool)
        ensures
            complete == self@.complete(),
    {
        self.queued.len() == 0 && self.active.is_none()
    }

    pub fn capture_submission_acknowledged(&self) -> (submitted: bool)
        ensures
            submitted == self@.submitted,
    {
        self.capture_submitted
    }

    /// Whether the capture is still whole, and of this plan.
    pub fn matches_plan(&self, plan: &GpuMirrorReadbackPlan) -> (matches: bool)
        ensures
            matches == capture_matches(self@, plan@),
    {
        if self.revision.0 != plan.revision.0 || self.byte_len != plan.byte_len || self.block_count
            != plan.block_count || self.remaining_byte_len != self.byte_len
            || self.active.is_some() || self.queued.len() != plan.batches.len() {
            assert(!capture_matches(self@, plan@)) by {
                if self.queued@.len() != plan.batches@.len() {
                    assert(self@.queued.len() != plan@.batches.len());
                }
            }
            return false;
        }
        let mut i: usize = 0;
        while i < self.queued.len()
            invariant
                i <= self.queued@.len(),
                self.queued@.len() == plan.batches@.len(),
                forall|k: int|
                    0 <= k < i ==> (#[trigger] self.queued@[k])@ == plan.batches@[k]@,
            decreases self.queued@.len() - i,
        {
            if !batches_equal(&self.queued[i], &plan.batches[i]) {
                assert(self@.queued[i as int] != plan@.batches[i as int]);
                return false;
            }
            i += 1;
        }
        assert(self@.queued =~= plan@.batches);
        true
    }

    pub fn capture_submitted(&mut self) -> (submitted: Result<(), GpuMirrorReadbackError>)
        requires
            old(self).wf(),
        ensures
            final(self).wf(),
            match submitted {
                Ok(_) => !old(self)@.submitted && final(self)@ == (CaptureModel {
                    submitted: true,
                    ..old(self)@
                }),
                Err(error) => old(self)@.submitted && error
                    == GpuMirrorReadbackError::CaptureAlreadySubmitted && *final(self) == *old(self),
            },
    {
        if self.capture_submitted {
            return Err(GpuMirrorReadbackError::CaptureAlreadySubmitted);
        }
        self.capture_submitted = true;
        Ok(())
    }

    /// Takes the next batch from the queue, and says whether there was one.
    pub fn encode_next_readback(&mut self, limits: DeviceLimits) -> (prepared: Result<
        bool,
        GpuMirrorReadbackError,
    >)
        requires
            old(self).wf(),
        ensures
            final(self).wf(),
            match prepared {
                Ok(prepared) => {
                    &&& next_readback_error(old(self)@, limits) is None
                    &&& prepared == (old(self)@.queued.len() > 0)
                    &&& final(self)@ == readback_prepared(old(self)@)
                },
                Err(error) => next_readback_error(old(self)@, limits) == Some(error) && final(self)@ == old(self)@,
            },
    {
        if !self.capture_submitted {
            return Err(GpuMirrorReadbackError::CaptureNotSubmitted);
        }
        if self.active.is_some() {
            return Err(GpuMirrorReadbackError::ReadbackAlreadyPrepared);
        }
        if self.queued.len() == 0 {
            return Ok(false);
        }
        let requested: u64 = self.queued[0].byte_len;
        if requested > limits.max_buffer_size {
            return Err(
                GpuMirrorReadbackError::BufferTooLarge {
                    requested,
                    maximum: limits.max_buffer_size,
                },
            );
        }
        let ghost before = self.queued@;
        let plan = self.queued.remove(0);
        proof {
            lemma_front_bytes(batch_models(before));
            assert(batch_models(self.queued@) =~= batch_models(before).drop_first());
        }
        self.active = Some(
            PendingGpuMirrorReadback { plan, map_state: ReadbackMapState::NotStarted },
        );
        self.active_submitted = false;
        Ok(true)
    }

    pub fn readback_submitted(&mut self) -> (submitted: Result<(), GpuMirrorReadbackError>)
        requires
            old(self).wf(),
        ensures
            final(self).wf(),
            match submitted {
                Ok(_) => submission_error(old(self)@) is None && final(self)@
                    == readback_sent(old(self)@),
                Err(error) => submission_error(old(self)@) == Some(error) && *final(self) == *old(self),
            },
    {
        if self.active.is_none() {
            return Err(GpuMirrorReadbackError::NoReadbackPrepared);
        }
        if self.active_submitted {
            return Err(GpuMirrorReadbackError::ReadbackAlreadySubmitted);
        }
        self.active_submitted = true;
        Ok(())
    }

    /// Puts the active batch back at the front of the queue.
    pub fn readback_discarded(&mut self) -> (discarded: Result<(), GpuMirrorReadbackError>)
        requires
            old(self).wf(),
        ensures
            final(self).wf(),
            match discarded {
                Ok(_) => discard_error(old(self)@) is None && final(self)@ == readback_returned(
                    old(self)@,
                ),
                Err(error) => discard_error(old(self)@) == Some(error) && final(self)@ == old(self)@,
            },
    {
        if self.active_submitted {
            return Err(GpuMirrorReadbackError::CannotDiscardSubmittedReadback);
        }
        match self.active.take() {
            Some(active) => {
                let ghost before = self.queued@;
                let ghost plan = active.plan@;
                self.queued.insert(0, active.plan);
                proof {
                    assert(batch_models(self.queued@) =~= seq![plan] + batch_models(before));
                    lemma_front_bytes(batch_models(self.queued@));
                    assert(batch_models(self.queued@).drop_first() =~= batch_models(before));
                }
                Ok(())
            },
            None => Err(GpuMirrorReadbackError::NoReadbackPrepared),
        }
    }

    /// Starts the mapping of the active batch. A batch without pixels is ready at once.
    pub fn begin_map(&mut self) -> (begun: Result<(), GpuMirrorReadbackError>)
        requires
            old(self).wf(),
        ensures
            final(self).wf(),
            match begun {
                Ok(_) => map_begin_error(old(self)@) is None && final(self)@ == map_begun(
                    old(self)@,
                ),
                Err(error) => map_begin_error(old(self)@) == Some(error) && final(self)@ == old(self)@,
            },
    {
        match self.active.take() {
            Some(mut active) => {
                if !self.active_submitted {
                    self.active = Some(active);
                    return Err(GpuMirrorReadbackError::ReadbackNotSubmitted);
                }
                if active.map_state != ReadbackMapState::NotStarted {
                    self.active = Some(active);
                    return Err(GpuMirrorReadbackError::MapAlreadyStarted);
                }
                active.map_state = if active.plan.byte_len == 0 {
                    ReadbackMapState::MetadataReady
                } else {
                    ReadbackMapState::Waiting
                };
                self.active = Some(active);
                Ok(())
            },
            None => Err(GpuMirrorReadbackError::NoReadbackPrepared),
        }
    }

    /// Takes the pixels of the active batch from what was mapped, once it has been.
    pub fn try_finish(&mut self, event: GpuMirrorMapEvent) -> (finished: Result<
        Option<GpuMirrorPatchBatch>,
        GpuMirrorReadbackError,
    >)
        requires
            old(self).wf(),
        ensures
            final(self).wf(),
            match finished {
                Ok(Some(batch)) => {
                    &&& finish_error(old(self)@, event) is None
                    &&& !still_pending(old(self)@, event)
                    &&& batch_read(
                        old(self)@.active->0.plan,
                        mapped_bytes(old(self)@, event),
                        batch@,
                    )
                    &&& final(self)@ == old(self)@.finished()
                },
                Ok(None) => {
                    &&& finish_error(old(self)@, event) is None
                    &&& still_pending(old(self)@, event)
                    &&& final(self)@ == old(self)@
                },
                Err(error) => match finish_error(old(self)@, event) {
                    Some(expected) => error == expected && final(self)@ == after_finish_error(
                        old(self)@,
                        error,
                    ),
                    None => {
                        &&& !still_pending(old(self)@, event)
                        &&& error == GpuMirrorReadbackError::InvalidMappedRegion
                        &&& has_pixels(old(self)@.active->0.plan)
                        &&& final(self)@ == old(self)@.with_state(ReadbackMapState::Finished)
                    },
                },
            },
    {
        match self.active.take() {
            Some(mut active) => {
                if !self.active_submitted {
                    self.active = Some(active);
                    return Err(GpuMirrorReadbackError::ReadbackNotSubmitted);
                }
                let nothing: [u8; 0] = [];
                let mut failure: Option<GpuMirrorReadbackError> = None;
                let mut bytes: &[u8] = nothing.as_slice();
                match active.map_state {
                    ReadbackMapState::NotStarted => {
                        self.active = Some(active);
                        return Err(GpuMirrorReadbackError::MapNotStarted);
                    },
                    ReadbackMapState::Finished => {
                        self.active = Some(active);
                        return Err(GpuMirrorReadbackError::MapAlreadyFinished);
                    },
                    ReadbackMapState::MetadataReady => {
                        assert(bytes@ =~= Seq::empty());
                    },
                    ReadbackMapState::Waiting => match event {
                        GpuMirrorMapEvent::Pending => {
                            self.active = Some(active);
                            return Ok(None);
                        },
                        GpuMirrorMapEvent::Disconnected => {
                            self.active = Some(active);
                            return Err(GpuMirrorReadbackError::MapChannelDisconnected);
                        },
                        GpuMirrorMapEvent::Failed => {
                            failure = Some(GpuMirrorReadbackError::MapFailed);
                        },
                        GpuMirrorMapEvent::Unreadable(error) => {
                            failure = Some(
                                GpuMirrorReadbackError::BufferAccess(error.duplicate()),
                            );
                        },
                        GpuMirrorMapEvent::Mapped(mapped) => {
                            bytes = mapped;
                        },
                    },
                }
                active.map_state = ReadbackMapState::Finished;
                if let Some(error) = failure {
                    self.active = Some(active);
                    return Err(error);
                }
                match decode_regions(&active.plan, bytes) {
                    Ok(regions) => {
                        proof {
                            lemma_batch_bytes_nonnegative(self.queued@);
                        }
                        self.remaining_byte_len = self.remaining_byte_len - active.plan.byte_len;
                        self.active_submitted = false;
                        Ok(
                            Some(
                                GpuMirrorPatchBatch {
                                    revision: active.plan.revision,
                                    index: active.plan.index,
                                    regions,
                                    byte_len: active.plan.byte_len,
                                },
                            ),
                        )
                    },
                    Err(error) => {
                        self.active = Some(active);
                        Err(error)
                    },
                }
            },
            None => Err(GpuMirrorReadbackError::NoReadbackPrepared),
        }
    }
}

proof fn lemma_batch_bytes_nonnegative(batches: Seq<GpuMirrorBatchPlan>)
    ensures
        batch_bytes(batch_models(batches)) >= 0,
    decreases batches.len(),
{
    if batches.len() > 0 {
        lemma_batch_bytes_nonnegative(batches.drop_last());
        assert(batch_models(batches.drop_last()) =~= batch_models(batches).drop_last());
    }
}

/// The mapping has been asked for, and there is no answer yet.
pub open spec fn still_pending(capture: CaptureModel, event: GpuMirrorMapEvent) -> bool {
    (capture.active matches Some(active) && active.state == ReadbackMapState::Waiting)
        && event is Pending
}

pub open spec fn has_pixels(plan: BatchPlanModel) -> bool {
    exists|i: int| 0 <= i < plan.regions.len() && (#[trigger] plan.regions[i]).initialized
}

/// Why no batch is taken from the queue, if none may be.
pub open spec fn next_readback_error(capture: CaptureModel, limits: DeviceLimits) -> Option<
    GpuMirrorReadbackError,
> {
    if !capture.submitted {
        Some(GpuMirrorReadbackError::CaptureNotSubmitted)
    } else if capture.active is Some {
        Some(GpuMirrorReadbackError::ReadbackAlreadyPrepared)
    } else if capture.queued.len() > 0 && capture.queued[0].byte_len > limits.max_buffer_size {
        Some(
            GpuMirrorReadbackError::BufferTooLarge {
                requested: capture.queued[0].byte_len as u64,
                maximum: limits.max_buffer_size,
            },
        )
    } else {
        None
    }
}

/// The capture once the front of its queue, if any, has become the active batch.
pub open spec fn readback_prepared(capture: CaptureModel) -> CaptureModel {
    if capture.queued.len() == 0 {
        capture
    } else {
        CaptureModel {
            queued: capture.queued.drop_first(),
            active: Some(
                ActiveReadbackModel {
                    plan: capture.queued[0],
                    state: ReadbackMapState::NotStarted,
                    submitted: false,
                },
            ),
            ..capture
        }
    }
}

/// The capture once its active batch is back at the front of the queue.
pub open spec fn readback_returned(capture: CaptureModel) -> CaptureModel {
    CaptureModel {
        queued: seq![capture.active->0.plan] + capture.queued,
        active: None,
        ..capture
    }
}

/// Why the active batch cannot be marked as submitted, if it cannot.
pub open spec fn submission_error(capture: CaptureModel) -> Option<GpuMirrorReadbackError> {
    match capture.active {
        Some(active) => if active.submitted {
            Some(GpuMirrorReadbackError::ReadbackAlreadySubmitted)
        } else {
            None
        },
        None => Some(GpuMirrorReadbackError::NoReadbackPrepared),
    }
}

pub open spec fn readback_sent(capture: CaptureModel) -> CaptureModel {
    CaptureModel {
        active: match capture.active {
            Some(active) => Some(ActiveReadbackModel { submitted: true, ..active }),
            None => None,
        },
        ..capture
    }
}

/// Why the active batch cannot be put back, if it cannot.
pub open spec fn discard_error(capture: CaptureModel) -> Option<GpuMirrorReadbackError> {
    match capture.active {
        Some(active) => if active.submitted {
            Some(GpuMirrorReadbackError::CannotDiscardSubmittedReadback)
        } else {
            None
        },
        None => Some(GpuMirrorReadbackError::NoReadbackPrepared),
    }
}

pub open spec fn map_begin_error(capture: CaptureModel) -> Option<GpuMirrorReadbackError> {
    match mapping_error(capture) {
        Some(error) => Some(error),
        None => if capture.active->0.state != ReadbackMapState::NotStarted {
            Some(GpuMirrorReadbackError::MapAlreadyStarted)
        } else {
            None
        },
    }
}

pub open spec fn map_begun(capture: CaptureModel) -> CaptureModel {
    capture.with_state(
        if capture.active->0.plan.byte_len == 0 {
            ReadbackMapState::MetadataReady
        } else {
            ReadbackMapState::Waiting
        },
    )
}

/// A batch that is prepared and then discarded is where it was.
pub proof fn law_discarding_a_readback_restores_the_capture(
    capture: CaptureModel,
    limits: DeviceLimits,
)
    requires
        capture.valid(),
        next_readback_error(capture, limits) is None,
        capture.queued.len() > 0,
    ensures
        readback_returned(readback_prepared(capture)) == capture,
{
    assert(seq![capture.queued[0]] + capture.queued.drop_first() =~= capture.queued);
}

/// A capture from which every batch has been read back owes no more bytes.
pub proof fn law_complete_capture_owes_nothing(capture: CaptureModel)
    requires
        capture.valid(),
        capture.complete(),
    ensures
        capture.remaining == 0,
{
}

} // verus!
