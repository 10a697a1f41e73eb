//! The ledger of the mask pages that a round stroke is drawn on.

use crate::device::{grown_capacity, grows_to, growth_fails, BufferGrowthError, DeviceLimits};
use crate::gpu_atlas::{
    AtlasLayout, AtlasPageBatch, AtlasPageId, AtlasSlot, LayerTileKey, ResidentWork,
};
use crate::gpu_round::{RoundBatchModel, RoundMaskBatch, RoundMaskInstance};
use crate::keyed_map::{lemma_entry_in_map, Key, KeyedMap};
use crate::ordering::{in_order, lemma_sorted, lemma_sorted_contains, sort, Ranked};
use crate::raster::{Rect, RectU32};
use vstd::prelude::*;

verus! {

/// The bytes that a buffer for instances starts with.
pub const INITIAL_INSTANCE_BUFFER_BYTES: u64 = 4096;

/// What one sweep takes in the instance buffer, in bytes.
pub const ROUND_INSTANCE_BYTES: u64 = 96;

/// What one place to clear takes in the instance buffer, in bytes.
pub const CLEAR_INSTANCE_BYTES: u64 = 16;

#[derive(Clone, Copy, Debug, PartialEq, Eq, Structural)]
#[allow(inconsistent_fields)]
pub enum RoundMaskTargetError {
    PageExceedsDeviceLimit { requested: u32, maximum: u32 },
    Float32BlendingUnavailable,
    LayoutMismatch { expected: AtlasLayout, actual: AtlasLayout },
    StrokeAlreadyActive,
    StrokeNotActive,
    BatchAwaitingSubmission,
    NoEncodedBatch,
    PageOutOfRange { page: u32, maximum_pages: u32 },
    InstanceCountOverflow,
    InstanceBufferOverflow,
    InstanceBufferTooLarge { requested: u64, maximum: u64 },
}

/// A tile that the current stroke has touched, and the part that it touched.
#[derive(Clone, Copy, Debug, PartialEq, Eq, Structural)]
pub struct ActiveRoundMaskTile {
    pub key: LayerTileKey,
    pub slot: AtlasSlot,
    pub local_damage: RectU32,
}

impl Ranked for ActiveRoundMaskTile {
    /// By page, by place in the page, by layer, by row, by column.
    open spec fn le(self, other: Self) -> bool {
        if self.slot.page.0 != other.slot.page.0 {
            self.slot.page.0 < other.slot.page.0
        } else if self.slot.slot_in_page != other.slot.slot_in_page {
            self.slot.slot_in_page < other.slot.slot_in_page
        } else if self.key.layer.0 != other.key.layer.0 {
            self.key.layer.0 < other.key.layer.0
        } else if self.key.tile.y != other.key.tile.y {
            self.key.tile.y < other.key.tile.y
        } else {
            self.key.tile.x <= other.key.tile.x
        }
    }

    proof fn le_total(first: Self, second: Self) {
    }

    proof fn le_transitive(first: Self, second: Self, third: Self) {
    }

    fn not_after(&self, other: &Self) -> (le: bool) {
        if self.slot.page.0 != other.slot.page.0 {
            self.slot.page.0 < other.slot.page.0
        } else if self.slot.slot_in_page != other.slot.slot_in_page {
            self.slot.slot_in_page < other.slot.slot_in_page
        } else if self.key.layer.0 != other.key.layer.0 {
            self.key.layer.0 < other.key.layer.0
        } else if self.key.tile.y != other.key.tile.y {
            self.key.tile.y < other.key.tile.y
        } else {
            self.key.tile.x <= other.key.tile.x
        }
    }
}

/// A tile together with the place where it lives.
#[derive(Clone, Copy, Debug, PartialEq, Eq, Structural)]
pub struct Resident {
    pub key: LayerTileKey,
    pub slot: AtlasSlot,
}

impl Key for Resident {
    fn same(self, other: Self) -> (equal: bool) {
        self.key.same(other.key) && self.slot.same(other.slot)
    }
}

#[derive(Clone, Copy, Debug, PartialEq, Eq, Structural)]
pub struct RoundMaskTargetStats {
    pub retained_pages: u32,
    pub render_passes: u32,
    pub round_instances: u32,
    pub cleared_slots: u32,
    pub instance_bytes_written: u64,
}

/// What is drawn on one page: which places are cleared, then which sweeps follow.
#[derive(Clone, Copy, Debug, PartialEq, Eq, Structural)]
pub struct PageEncoding {
    pub page: AtlasPageId,
    pub round_start: u32,
    pub round_end: u32,
    pub clear_start: u32,
    pub clear_end: u32,
}

/// What the device has to do for one batch.
#[derive(Clone, Debug, PartialEq)]
pub struct RoundMaskEncoding {
    pub stats: RoundMaskTargetStats,
    pub pages: Vec<PageEncoding>,
    pub round_instances: Vec<RoundMaskInstance>,
    pub cleared: Vec<Resident>,
}

/// The work of all pages, page by page.
pub open spec fn flat_work(pages: Seq<AtlasPageBatch<RoundMaskInstance>>) -> Seq<
    ResidentWork<RoundMaskInstance>,
>
    decreases pages.len(),
{
    if pages.len() == 0 {
        Seq::empty()
    } else {
        flat_work(pages.drop_last()) + pages.last().work@
    }
}

pub open spec fn resident_of(work: ResidentWork<RoundMaskInstance>) -> Resident {
    Resident { key: work.key, slot: work.slot }
}

/// The residents that the stroke has not touched before, in the order in which the
/// work first comes to them.
pub open spec fn first_touched(
    active: Map<Resident, Rect>,
    work: Seq<ResidentWork<RoundMaskInstance>>,
) -> Seq<Resident>
    decreases work.len(),
{
    if work.len() == 0 {
        Seq::empty()
    } else {
        let earlier = first_touched(active, work.drop_last());
        let resident = resident_of(work.last());
        if active.contains_key(resident) || earlier.contains(resident) {
            earlier
        } else {
            earlier.push(resident)
        }
    }
}

pub open spec fn payloads(work: Seq<ResidentWork<RoundMaskInstance>>) -> Seq<RoundMaskInstance> {
    Seq::new(work.len(), |i: int| work[i].payload)
}

/// The resident that the `i`th touched tile of a batch is.
pub open spec fn touched_resident(batch: RoundBatchModel, i: int) -> Resident {
    Resident { key: batch.touched_tiles[i].key, slot: batch.allocations[i].slot }
}

/// The damage of the stroke after the first `n` touched tiles.
pub open spec fn damaged(active: Map<Resident, Rect>, batch: RoundBatchModel, n: int) -> Map<
    Resident,
    Rect,
>
    decreases n,
{
    if n <= 0 {
        active
    } else {
        let before = damaged(active, batch, n - 1);
        let resident = touched_resident(batch, n - 1);
        let local = batch.touched_tiles[n - 1].local_damage@;
        before.insert(
            resident,
            if before.contains_key(resident) {
                before[resident].union(local)
            } else {
                local
            },
        )
    }
}

/// What each touched tile had been before.
pub open spec fn changes(active: Map<Resident, Rect>, batch: RoundBatchModel, n: int) -> Seq<
    (Resident, Option<Rect>),
>
    decreases n,
{
    if n <= 0 {
        Seq::empty()
    } else {
        let before = damaged(active, batch, n - 1);
        let resident = touched_resident(batch, n - 1);
        changes(active, batch, n - 1).push(
            (
                resident,
                if before.contains_key(resident) {
                    Some(before[resident])
                } else {
                    None
                },
            ),
        )
    }
}

/// Takes changes back, the last one first.
pub open spec fn taken_back(
    active: Map<Resident, Rect>,
    changes: Seq<(Resident, Option<Rect>)>,
) -> Map<Resident, Rect>
    decreases changes.len(),
{
    if changes.len() == 0 {
        active
    } else {
        let (resident, previous) = changes.last();
        taken_back(
            match previous {
                Some(rect) => active.insert(resident, rect),
                None => active.remove(resident),
            },
            changes.drop_last(),
        )
    }
}

pub struct RoundTargetModel {
    pub material: bool,
    pub layout: AtlasLayout,
    pub limits: DeviceLimits,
    pub pages: nat,
    pub round_capacity: u64,
    pub clear_capacity: u64,
    pub active: bool,
    pub active_tiles: Map<Resident, Rect>,
    pub pending: bool,
    pub pending_changes: Seq<(Resident, Option<Rect>)>,
}

/// The mask pages of one device, and the tiles that the current stroke has touched.
#[derive(Debug)]
pub struct RoundMaskTarget {
    pub(crate) material: bool,
    pub(crate) layout: AtlasLayout,
    pub(crate) limits: DeviceLimits,
    pub(crate) pages: usize,
    pub(crate) round_buffer_capacity: u64,
    pub(crate) clear_buffer_capacity: u64,
    pub(crate) active: bool,
    pub(crate) active_tiles: KeyedMap<Resident, RectU32>,
    pub(crate) encoded_batch_pending: bool,
    pub(crate) pending_damage_changes: Vec<(Resident, Option<RectU32>)>,
}

pub open spec fn rect_map(tiles: Map<Resident, RectU32>) -> Map<Resident, Rect> {
    tiles.map_values(|bounds: RectU32| bounds@)
}

pub open spec fn change_model(change: (Resident, Option<RectU32>)) -> (Resident, Option<Rect>) {
    (
        change.0,
        match change.1 {
            Some(bounds) => Some(bounds@),
            None => None,
        },
    )
}

pub open spec fn change_models(changes: Seq<(Resident, Option<RectU32>)>) -> Seq<
    (Resident, Option<Rect>),
> {
    Seq::new(changes.len(), |i: int| change_model(changes[i]))
}

impl View for RoundMaskTarget {
    type V = RoundTargetModel;

    open(crate) spec fn view(&self) -> RoundTargetModel {
        RoundTargetModel {
            material: self.material,
            layout: self.layout,
            limits: self.limits,
            pages: self.pages as nat,
            round_capacity: self.round_buffer_capacity,
            clear_capacity: self.clear_buffer_capacity,
            active: self.active,
            active_tiles: rect_map(self.active_tiles@),
            pending: self.encoded_batch_pending,
            pending_changes: change_models(self.pending_damage_changes@),
        }
    }
}

/// Every touched tile once, in the order of the places.
pub open spec fn active_list(
    active: Map<Resident, Rect>,
    tiles: Seq<ActiveRoundMaskTile>,
) -> bool {
    &&& in_order(tiles)
    &&& forall|i: int|
        #![trigger tiles[i]]
        0 <= i < tiles.len() ==> {
            let resident = Resident { key: tiles[i].key, slot: tiles[i].slot };
            &&& active.contains_key(resident)
            &&& active[resident] == tiles[i].local_damage@
        }
    &&& forall|resident: Resident| #[trigger]
        active.contains_key(resident) ==> exists|i: int|
            0 <= i < tiles.len() && (#[trigger] tiles[i]).key == resident.key && tiles[i].slot
                == resident.slot
    &&& active.dom().finite()
    &&& tiles.len() == active.dom().len()
}

/// Whether the encoding tells the device to draw the batch.
pub open spec fn encodes(
    active: Map<Resident, Rect>,
    batch: RoundBatchModel,
    encoding: RoundMaskEncoding,
) -> bool {
    let work = flat_work(batch.pages);
    let cleared = first_touched(active, work);
    &&& encoding.round_instances@ == payloads(work)
    &&& encoding.cleared@ == cleared
    &&& encoding.pages@.len() == batch.pages.len()
    &&& forall|k: int|
        #![trigger encoding.pages@[k]]
        0 <= k < batch.pages.len() ==> {
            let page = encoding.pages@[k];
            let before = flat_work(batch.pages.subrange(0, k));
            let after = flat_work(batch.pages.subrange(0, k + 1));
            &&& page.page == batch.pages[k].page
            &&& page.round_start == before.len()
            &&& page.round_end == after.len()
            &&& page.clear_start == first_touched(active, before).len()
            &&& page.clear_end == first_touched(active, after).len()
        }
    &&& encoding.stats.render_passes == batch.pages.len() as u32
    &&& encoding.stats.round_instances == work.len()
    &&& encoding.stats.cleared_slots == cleared.len()
    &&& encoding.stats.instance_bytes_written == work.len() * ROUND_INSTANCE_BYTES + cleared.len()
        * CLEAR_INSTANCE_BYTES
}

pub open spec fn growth_error(error: BufferGrowthError) -> RoundMaskTargetError {
    match error {
        BufferGrowthError::Overflow => RoundMaskTargetError::InstanceBufferOverflow,
        BufferGrowthError::TooLarge { requested, maximum } => {
            RoundMaskTargetError::InstanceBufferTooLarge { requested, maximum }
        },
    }
}

fn buffer_error(error: BufferGrowthError) -> (converted: RoundMaskTargetError)
    ensures
        converted == growth_error(error),
{
    match error {
        BufferGrowthError::Overflow => RoundMaskTargetError::InstanceBufferOverflow,
        BufferGrowthError::TooLarge { requested, maximum } => {
            RoundMaskTargetError::InstanceBufferTooLarge { requested, maximum }
        },
    }
}

/// The count of pages after `highest` has been drawn on.
pub open spec fn pages_with(pages: nat, highest: AtlasPageId) -> nat {
    if pages <= highest.0 {
        (highest.0 + 1) as nat
    } else {
        pages
    }
}

/// Whether drawing a nonempty batch leads from one state to another.
pub open spec fn encoded_state(
    before: RoundTargetModel,
    batch: RoundBatchModel,
    after: RoundTargetModel,
) -> bool {
    let work = flat_work(batch.pages);
    let cleared = first_touched(before.active_tiles, work);
    let n = batch.touched_tiles.len() as int;
    &&& grows_to(
        before.round_capacity,
        (work.len() * ROUND_INSTANCE_BYTES) as u64,
        before.limits.max_buffer_size,
        after.round_capacity,
    )
    &&& grows_to(
        before.clear_capacity,
        (cleared.len() * CLEAR_INSTANCE_BYTES) as u64,
        before.limits.max_buffer_size,
        after.clear_capacity,
    )
    &&& batch.pages.last().page.0 < before.layout@.max_pages
    &&& after == (RoundTargetModel {
        pages: pages_with(before.pages, batch.pages.last().page),
        round_capacity: after.round_capacity,
        clear_capacity: after.clear_capacity,
        active_tiles: damaged(before.active_tiles, batch, n),
        pending: true,
        pending_changes: changes(before.active_tiles, batch, n),
        ..before
    })
}

/// Whether drawing a nonempty batch fails with this error. Buffers that have already
/// grown stay grown.
pub open spec fn encoding_fails(
    before: RoundTargetModel,
    batch: RoundBatchModel,
    error: RoundMaskTargetError,
    after: RoundTargetModel,
) -> bool {
    let work = flat_work(batch.pages);
    let cleared = first_touched(before.active_tiles, work);
    let maximum = before.limits.max_buffer_size;
    let round_bytes = (work.len() * ROUND_INSTANCE_BYTES) as u64;
    let clear_bytes = (cleared.len() * CLEAR_INSTANCE_BYTES) as u64;
    if work.len() > u32::MAX {
        error == RoundMaskTargetError::InstanceCountOverflow && after == before
    } else {
        ||| {
            &&& after == before
            &&& exists|fault: BufferGrowthError|
                error == growth_error(fault) && #[trigger] growth_fails(
                    before.round_capacity,
                    round_bytes,
                    maximum,
                    fault,
                )
        }
        ||| {
            &&& grows_to(before.round_capacity, round_bytes, maximum, after.round_capacity)
            &&& after == (RoundTargetModel { round_capacity: after.round_capacity, ..before })
            &&& exists|fault: BufferGrowthError|
                error == growth_error(fault) && #[trigger] growth_fails(
                    before.clear_capacity,
                    clear_bytes,
                    maximum,
                    fault,
                )
        }
        ||| {
            &&& grows_to(before.round_capacity, round_bytes, maximum, after.round_capacity)
            &&& grows_to(before.clear_capacity, clear_bytes, maximum, after.clear_capacity)
            &&& after == (RoundTargetModel {
                round_capacity: after.round_capacity,
                clear_capacity: after.clear_capacity,
                ..before
            })
            &&& batch.pages.last().page.0 >= before.layout@.max_pages
            &&& error == (RoundMaskTargetError::PageOutOfRange {
                page: batch.pages.last().page.0,
                maximum_pages: before.layout@.max_pages as u32,
            })
        }
    }
}

proof fn lemma_first_touched_len(
    active: Map<Resident, Rect>,
    work: Seq<ResidentWork<RoundMaskInstance>>,
)
    ensures
        first_touched(active, work).len() <= work.len(),
    decreases work.len(),
{
    if work.len() > 0 {
        lemma_first_touched_len(active, work.drop_last());
    }
}

proof fn lemma_flat_len(pages: Seq<AtlasPageBatch<RoundMaskInstance>>, k: int)
    requires
        0 <= k <= pages.len(),
    ensures
        flat_work(pages.subrange(0, k)).len() <= flat_work(pages).len(),
    decreases pages.len() - k,
{
    if k < pages.len() {
        lemma_flat_len(pages, k + 1);
        assert(pages.subrange(0, k + 1).drop_last() =~= pages.subrange(0, k));
    } else {
        assert(pages.subrange(0, k) =~= pages);
    }
}

/// What comes of encoding a batch.
pub open spec fn encode_reported(
    before: RoundTargetModel,
    batch: RoundBatchModel,
    encoding: Result<RoundMaskEncoding, RoundMaskTargetError>,
    after: RoundTargetModel,
) -> bool {
    match encoding {
        Ok(encoding) => {
            &&& before.active
            &&& !before.pending
            &&& batch.layout@ == before.layout@
            &&& encodes(before.active_tiles, batch, encoding)
            &&& encoding.stats.retained_pages == after.pages
            &&& if batch.pages.len() == 0 {
                after == before
            } else {
                encoded_state(before, batch, after)
            }
        },
        Err(error) => if !before.active {
            error == RoundMaskTargetError::StrokeNotActive && after == before
        } else if before.pending {
            error == RoundMaskTargetError::BatchAwaitingSubmission && after == before
        } else if batch.layout@ != before.layout@ {
            &&& error == (RoundMaskTargetError::LayoutMismatch {
                expected: before.layout,
                actual: batch.layout,
            })
            &&& after == before
        } else {
            batch.pages.len() > 0 && encoding_fails(before, batch, error, after)
        },
    }
}

/// Whether a list of residents holds one.
fn holds(residents: &Vec<Resident>, resident: Resident) -> (held: bool)
    ensures
        held == residents@.contains(resident),
{
    let mut i: usize = 0;
    while i < residents.len()
        invariant
            i <= residents@.len(),
            forall|k: int| 0 <= k < i ==> #[trigger] residents@[k] != resident,
        decreases residents@.len() - i,
    {
        if residents[i].same(resident) {
            assert(residents@[i as int] == resident);
            return true;
        }
        i += 1;
    }
    false
}

impl RoundMaskTarget {
    pub open(crate) spec fn wf(self) -> bool {
        &&& self.active_tiles.wf()
        &&& self.pages <= self.layout@.max_pages
        &&& !self.encoded_batch_pending ==> self.pending_damage_changes@.len() == 0
    }

    pub fn new(limits: DeviceLimits, layout: AtlasLayout) -> (target: Result<
        RoundMaskTarget,
        RoundMaskTargetError,
    >)
        ensures
            Self::created(limits, layout, false, target),
    {
        Self::new_internal(limits, layout, false)
    }

    /// A target whose masks hold a coverage and a thickness.
    pub fn new_material(limits: DeviceLimits, layout: AtlasLayout) -> (target: Result<
        RoundMaskTarget,
        RoundMaskTargetError,
    >)
        ensures
            Self::created(limits, layout, true, target),
    {
        Self::new_internal(limits, layout, true)
    }

    pub open(crate) spec fn created(
        limits: DeviceLimits,
        layout: AtlasLayout,
        material: bool,
        target: Result<RoundMaskTarget, RoundMaskTargetError>,
    ) -> bool {
        match target {
            Ok(target) => {
                &&& layout@.page_size <= limits.max_texture_dimension_2d
                &&& limits.float32_blendable
                &&& target.wf()
                &&& target@ == (RoundTargetModel {
                    material,
                    layout,
                    limits,
                    pages: 0,
                    round_capacity: INITIAL_INSTANCE_BUFFER_BYTES,
                    clear_capacity: INITIAL_INSTANCE_BUFFER_BYTES,
                    active: false,
                    active_tiles: Map::empty(),
                    pending: false,
                    pending_changes: Seq::empty(),
                })
            },
            Err(error) => if layout@.page_size > limits.max_texture_dimension_2d {
                error == (RoundMaskTargetError::PageExceedsDeviceLimit {
                    requested: layout@.page_size as u32,
                    maximum: limits.max_texture_dimension_2d,
                })
            } else {
                !limits.float32_blendable && error
                    == RoundMaskTargetError::Float32BlendingUnavailable
            },
        }
    }

    fn new_internal(limits: DeviceLimits, layout: AtlasLayout, material: bool) -> (target: Result<
        RoundMaskTarget,
        RoundMaskTargetError,
    >)
        ensures
            Self::created(limits, layout, material, target),
    {
        if layout.page_size() > limits.max_texture_dimension_2d {
            return Err(
                RoundMaskTargetError::PageExceedsDeviceLimit {
                    requested: layout.page_size(),
                    maximum: limits.max_texture_dimension_2d,
                },
            );
        }
        if !limits.float32_blendable {
            return Err(RoundMaskTargetError::Float32BlendingUnavailable);
        }
        let max_pages: u32 = layout.max_pages();
        let target = RoundMaskTarget {
            material,
            layout,
            limits,
            pages: 0,
            round_buffer_capacity: INITIAL_INSTANCE_BUFFER_BYTES,
            clear_buffer_capacity: INITIAL_INSTANCE_BUFFER_BYTES,
            active: false,
            active_tiles: KeyedMap::new(),
            encoded_batch_pending: false,
            pending_damage_changes: Vec::new(),
        };
        assert(target@.active_tiles =~= Map::<Resident, Rect>::empty());
        assert(target@.pending_changes =~= Seq::<(Resident, Option<Rect>)>::empty());
        Ok(target)
    }

    /// Whether the brush of the target may be changed now.
    pub fn check_brush_change(&self) -> (checked: Result<(), RoundMaskTargetError>)
        ensures
            match checked {
                Ok(_) => !self@.active,
                Err(error) => self@.active && error == RoundMaskTargetError::StrokeAlreadyActive,
            },
    {
        if self.active {
            return Err(RoundMaskTargetError::StrokeAlreadyActive);
        }
        Ok(())
    }

    pub fn layout(&self) -> (layout: AtlasLayout)
        ensures
            layout == self@.layout,
    {
        self.layout
    }

    pub fn begin_stroke(&mut self) -> (begun: Result<(), RoundMaskTargetError>)
        requires
            old(self).wf(),
        ensures
            final(self).wf(),
            match begun {
                Ok(_) => {
                    &&& !old(self)@.pending
                    &&& !old(self)@.active
                    &&& final(self)@ == (RoundTargetModel {
                        active: true,
                        active_tiles: Map::empty(),
                        ..old(self)@
                    })
                },
                Err(error) => {
                    &&& error == (if old(self)@.pending {
                        RoundMaskTargetError::BatchAwaitingSubmission
                    } else {
                        RoundMaskTargetError::StrokeAlreadyActive
                    })
                    &&& old(self)@.pending || old(self)@.active
                    &&& *final(self) == *old(self)
                },
            },
    {
        if self.encoded_batch_pending {
            return Err(RoundMaskTargetError::BatchAwaitingSubmission);
        }
        if self.active {
            return Err(RoundMaskTargetError::StrokeAlreadyActive);
        }
        self.active = true;
        self.active_tiles = KeyedMap::new();
        assert(self@.active_tiles =~= Map::<Resident, Rect>::empty());
        Ok(())
    }

    pub fn end_stroke(&mut self) -> (ended: Result<(), RoundMaskTargetError>)
        requires
            old(self).wf(),
        ensures
            final(self).wf(),
            match ended {
                Ok(_) => old(self)@.active && final(self)@ == (RoundTargetModel {
                    active: false,
                    ..old(self)@
                }),
                Err(error) => {
                    &&& error == RoundMaskTargetError::StrokeNotActive
                    &&& !old(self)@.active
                    &&& *final(self) == *old(self)
                },
            },
    {
        if !self.active {
            return Err(RoundMaskTargetError::StrokeNotActive);
        }
        self.active = false;
        Ok(())
    }

    /// Gives up the pages of a material target. Others keep theirs.
    pub fn release_material_pages(&mut self)
        requires
            old(self).wf(),
            !old(self)@.active,
            !old(self)@.pending,
        ensures
            final(self).wf(),
            final(self)@ == (if old(self)@.material {
                RoundTargetModel { pages: 0, active_tiles: Map::empty(), ..old(self)@ }
            } else {
                old(self)@
            }),
    {
        if self.material {
            let max_pages: u32 = self.layout.max_pages();
            self.pages = 0;
            self.active_tiles = KeyedMap::new();
            assert(self@.active_tiles =~= Map::<Resident, Rect>::empty());
        }
    }

    pub fn stroke_is_active(&self) -> (active: bool)
        ensures
            active == self@.active,
    {
        self.active
    }

    pub fn active_slot_count(&self) -> (count: usize)
        requires
            self.wf(),
        ensures
            self@.active_tiles.dom().finite(),
            count == self@.active_tiles.dom().len(),
    {
        assert(self@.active_tiles.dom() =~= self.active_tiles@.dom());
        self.active_tiles.len()
    }

    /// The touched tiles in the order of their places.
    pub fn active_tiles(&self) -> (tiles: Vec<ActiveRoundMaskTile>)
        requires
            self.wf(),
        ensures
            active_list(self@.active_tiles, tiles@),
    {
        let ghost order = self.active_tiles.entries@;
        let mut tiles: Vec<ActiveRoundMaskTile> = Vec::new();
        let mut i: usize = 0;
        while i < self.active_tiles.entries.len()
            invariant
                order == self.active_tiles.entries@,
                i <= order.len(),
                tiles@.len() == i,
                forall|k: int|
                    0 <= k < i ==> #[trigger] tiles@[k] == (ActiveRoundMaskTile {
                        key: order[k].0.key,
                        slot: order[k].0.slot,
                        local_damage: order[k].1,
                    }),
            decreases order.len() - i,
        {
            let resident = self.active_tiles.entries[i].0;
            tiles.push(
                ActiveRoundMaskTile {
                    key: resident.key,
                    slot: resident.slot,
                    local_damage: self.active_tiles.entries[i].1,
                },
            );
            i += 1;
        }
        let ghost found = tiles@;
        let ordered = sort(tiles);
        proof {
            lemma_sorted(found);
            crate::keyed_map::lemma_map_len(order);
            assert(self@.active_tiles.dom() =~= self.active_tiles@.dom());
            assert forall|k: int|
                #![trigger ordered@[k]]
                0 <= k < ordered@.len() implies {
                let resident = Resident { key: ordered@[k].key, slot: ordered@[k].slot };
                &&& self@.active_tiles.contains_key(resident)
                &&& self@.active_tiles[resident] == ordered@[k].local_damage@
            } by {
                lemma_sorted_contains(found, ordered@[k]);
                assert(ordered@.contains(ordered@[k]));
                let a = choose|a: int| 0 <= a < found.len() && found[a] == ordered@[k];
                lemma_entry_in_map(order, a);
                assert(order[a].0 == (Resident { key: ordered@[k].key, slot: ordered@[k].slot }));
            }
            assert forall|resident: Resident| #[trigger]
                self@.active_tiles.contains_key(resident) implies exists|k: int|
                0 <= k < ordered@.len() && (#[trigger] ordered@[k]).key == resident.key
                    && ordered@[k].slot == resident.slot by {
                let a = choose|a: int| 0 <= a < order.len() && (#[trigger] order[a]).0 == resident;
                lemma_sorted_contains(found, found[a]);
                assert(found.contains(found[a]));
                let k = choose|k: int| 0 <= k < ordered@.len() && ordered@[k] == found[a];
                assert(ordered@[k].key == resident.key);
            }
        }
        ordered
    }

    /// The residents of the touched tiles, in the order of their places.
    pub fn active_residents(&self) -> (residents: Vec<Resident>)
        requires
            self.wf(),
        ensures
            forall|i: int|
                #![trigger residents@[i]]
                0 <= i < residents@.len() ==> self@.active_tiles.contains_key(residents@[i]),
            forall|resident: Resident| #[trigger]
                self@.active_tiles.contains_key(resident) ==> residents@.contains(resident),
            forall|i: int, j: int|
                #![trigger residents@[i], residents@[j]]
                0 <= i < j < residents@.len() ==> residents_in_order(residents@[i], residents@[j]),
            residents@.len() == self@.active_tiles.dom().len(),
    {
        let tiles = self.active_tiles();
        let mut residents: Vec<Resident> = Vec::new();
        let mut i: usize = 0;
        while i < tiles.len()
            invariant
                i <= tiles@.len(),
                residents@.len() == i,
                forall|k: int|
                    0 <= k < i ==> #[trigger] residents@[k] == (Resident {
                        key: tiles@[k].key,
                        slot: tiles@[k].slot,
                    }),
            decreases tiles@.len() - i,
        {
            residents.push(Resident { key: tiles[i].key, slot: tiles[i].slot });
            i += 1;
        }
        proof {
            assert forall|k: int|
                #![trigger residents@[k]]
                0 <= k < residents@.len() implies self@.active_tiles.contains_key(
                residents@[k],
            ) by {
                let tile = tiles@[k];
            }
            assert forall|resident: Resident| #[trigger]
                self@.active_tiles.contains_key(resident) implies residents@.contains(
                resident,
            ) by {
                let k = choose|k: int|
                    0 <= k < tiles@.len() && (#[trigger] tiles@[k]).key == resident.key
                        && tiles@[k].slot == resident.slot;
                assert(residents@[k] == resident);
            }
            assert forall|a: int, b: int|
                #![trigger residents@[a], residents@[b]]
                0 <= a < b < residents@.len() implies residents_in_order(
                residents@[a],
                residents@[b],
            ) by {
                assert(tiles@[a].le(tiles@[b]));
            }
        }
        residents
    }

    pub fn encoded_batch_is_pending(&self) -> (pending: bool)
        ensures
            pending == self@.pending,
    {
        self.encoded_batch_pending
    }

    pub fn encoded_batch_submitted(&mut self) -> (submitted: Result<(), RoundMaskTargetError>)
        requires
            old(self).wf(),
        ensures
            final(self).wf(),
            match submitted {
                Ok(_) => old(self)@.pending && final(self)@ == (RoundTargetModel {
                    pending: false,
                    pending_changes: Seq::empty(),
                    ..old(self)@
                }),
                Err(error) => {
                    &&& error == RoundMaskTargetError::NoEncodedBatch
                    &&& !old(self)@.pending
                    &&& *final(self) == *old(self)
                },
            },
    {
        if !self.encoded_batch_pending {
            return Err(RoundMaskTargetError::NoEncodedBatch);
        }
        self.encoded_batch_pending = false;
        self.pending_damage_changes = Vec::new();
        assert(self@.pending_changes =~= Seq::<(Resident, Option<Rect>)>::empty());
        Ok(())
    }

    /// Takes back what the last batch did to the damage.
    pub fn encoded_batch_discarded(&mut self) -> (discarded: Result<(), RoundMaskTargetError>)
        requires
            old(self).wf(),
        ensures
            final(self).wf(),
            match discarded {
                Ok(_) => old(self)@.pending && final(self)@ == (RoundTargetModel {
                    active_tiles: taken_back(
                        old(self)@.active_tiles,
                        old(self)@.pending_changes,
                    ),
                    pending: false,
                    pending_changes: Seq::empty(),
                    ..old(self)@
                }),
                Err(error) => {
                    &&& error == RoundMaskTargetError::NoEncodedBatch
                    &&& !old(self)@.pending
                    &&& *final(self) == *old(self)
                },
            },
    {
        if !self.encoded_batch_pending {
            return Err(RoundMaskTargetError::NoEncodedBatch);
        }
        let ghost model = self@;
        while self.pending_damage_changes.len() > 0
            invariant
                self.wf(),
                self.encoded_batch_pending,
                model == old(self)@,
                taken_back(self@.active_tiles, self@.pending_changes) == taken_back(
                    model.active_tiles,
                    model.pending_changes,
                ),
                self@ == (RoundTargetModel {
                    active_tiles: self@.active_tiles,
                    pending_changes: self@.pending_changes,
                    ..model
                }),
            decreases self.pending_damage_changes@.len(),
        {
            let ghost before = self@;
            match self.pending_damage_changes.pop() {
                Some((resident, previous)) => {
                    proof {
                        assert(before.pending_changes.last() == change_model((resident, previous)));
                        assert(self@.pending_changes =~= before.pending_changes.drop_last());
                    }
                    match previous {
                        Some(damage) => {
                            self.active_tiles.insert(resident, damage);
                            assert(self@.active_tiles =~= before.active_tiles.insert(
                                resident,
                                damage@,
                            ));
                        },
                        None => {
                            self.active_tiles.remove(resident);
                            assert(self@.active_tiles =~= before.active_tiles.remove(resident));
                        },
                    }
                    assert(self@.pending_changes =~= before.pending_changes.drop_last());
                },
                None => {},
            }
        }
        assert(self@.pending_changes =~= Seq::<(Resident, Option<Rect>)>::empty());
        self.encoded_batch_pending = false;
        Ok(())
    }

    pub fn retained_page_count(&self) -> (count: usize)
        ensures
            count == self@.pages,
    {
        self.pages
    }

    /// Lists the sweeps and the places to clear, page by page.
    #[verifier::loop_isolation(false)]
    fn list_work(&self, batch: &RoundMaskBatch) -> (encoding: Result<
        RoundMaskEncoding,
        RoundMaskTargetError,
    >)
        requires
            self.wf(),
        ensures
            match encoding {
                Ok(encoding) => {
                    &&& flat_work(batch@.pages).len() <= u32::MAX
                    &&& encodes(self@.active_tiles, batch@, encoding)
                    &&& encoding.stats.retained_pages == self@.pages
                },
                Err(error) => {
                    &&& error == RoundMaskTargetError::InstanceCountOverflow
                    &&& flat_work(batch@.pages).len() > u32::MAX
                },
            },
    {
        let ghost active = self@.active_tiles;
        let ghost all = batch.pages@;
        let mut round_instances: Vec<RoundMaskInstance> = Vec::new();
        let mut cleared: Vec<Resident> = Vec::new();
        let mut pages: Vec<PageEncoding> = Vec::new();
        let mut p: usize = 0;
        assert(all.subrange(0, 0) =~= Seq::<AtlasPageBatch<RoundMaskInstance>>::empty());
        assert(payloads(flat_work(all.subrange(0, 0))) =~= round_instances@);
        while p < batch.pages.len()
            invariant
                p <= all.len(),
                pages@.len() == p,
                round_instances@.len() <= u32::MAX,
                cleared@.len() <= round_instances@.len(),
                round_instances@ == payloads(flat_work(all.subrange(0, p as int))),
                cleared@ == first_touched(active, flat_work(all.subrange(0, p as int))),
                forall|k: int|
                    #![trigger pages@[k]]
                    0 <= k < p ==> {
                        let page = pages@[k];
                        let before = flat_work(all.subrange(0, k));
                        let after = flat_work(all.subrange(0, k + 1));
                        &&& page.page == all[k].page
                        &&& page.round_start == before.len()
                        &&& page.round_end == after.len()
                        &&& page.clear_start == first_touched(active, before).len()
                        &&& page.clear_end == first_touched(active, after).len()
                    },
            decreases all.len() - p,
        {
            let page = &batch.pages[p];
            let ghost before = flat_work(all.subrange(0, p as int));
            let round_start: u32 = round_instances.len() as u32;
            let clear_start: u32 = cleared.len() as u32;
            let mut w: usize = 0;
            proof {
                let prefix = all.subrange(0, p as int + 1);
                assert(prefix.drop_last() =~= all.subrange(0, p as int));
                assert(prefix.last() == *page);
                assert(before + page.work@.subrange(0, 0) =~= before);
            }
            while w < page.work.len()
                invariant
                    w <= page.work@.len(),
                    round_instances@.len() <= u32::MAX,
                    cleared@.len() <= round_instances@.len(),
                    round_instances@ == payloads(before + page.work@.subrange(0, w as int)),
                    cleared@ == first_touched(
                        active,
                        before + page.work@.subrange(0, w as int),
                    ),
                decreases page.work@.len() - w,
            {
                let ghost listed = before + page.work@.subrange(0, w as int);
                let ghost next = before + page.work@.subrange(0, w as int + 1);
                proof {
                    assert(next.drop_last() =~= listed);
                    assert(next.last() == page.work@[w as int]);
                }
                if round_instances.len() == u32::MAX as usize {
                    proof {
                        lemma_flat_len(all, p as int + 1);
                    }
                    return Err(RoundMaskTargetError::InstanceCountOverflow);
                }
                let item = page.work[w];
                round_instances.push(item.payload);
                assert(round_instances@ =~= payloads(next));
                let resident = Resident { key: item.key, slot: item.slot };
                proof {
                    assert(self.active_tiles@.contains_key(resident) == active.contains_key(
                        resident,
                    ));
                }
                if !self.active_tiles.contains(resident) && !holds(&cleared, resident) {
                    cleared.push(resident);
                }
                w += 1;
            }
            assert(page.work@.subrange(0, w as int) =~= page.work@);
            pages.push(
                PageEncoding {
                    page: page.page,
                    round_start,
                    round_end: round_instances.len() as u32,
                    clear_start,
                    clear_end: cleared.len() as u32,
                },
            );
            p += 1;
        }
        assert(all.subrange(0, p as int) =~= all);
        let stats = RoundMaskTargetStats {
            retained_pages: self.pages as u32,
            render_passes: #[verifier::truncate]
            (pages.len() as u32),
            round_instances: round_instances.len() as u32,
            cleared_slots: cleared.len() as u32,
            instance_bytes_written: round_instances.len() as u64 * ROUND_INSTANCE_BYTES
                + cleared.len() as u64 * CLEAR_INSTANCE_BYTES,
        };
        Ok(RoundMaskEncoding { stats, pages, round_instances, cleared })
    }

    /// Adds the damage of a batch, and remembers what it replaced.
    fn add_damage(&mut self, batch: &RoundMaskBatch)
        requires
            old(self).wf(),
            old(self)@.pending,
            old(self)@.pending_changes.len() == 0,
            batch.wf(),
        ensures
            final(self).wf(),
            ({
                let n = batch@.touched_tiles.len() as int;
                final(self)@ == (RoundTargetModel {
                    active_tiles: damaged(old(self)@.active_tiles, batch@, n),
                    pending_changes: changes(old(self)@.active_tiles, batch@, n),
                    ..old(self)@
                })
            }),
    {
        let ghost model = self@;
        let mut i: usize = 0;
        assert(self@.pending_changes =~= Seq::<(Resident, Option<Rect>)>::empty());
        while i < batch.touched_tiles.len()
            invariant
                self.wf(),
                self.encoded_batch_pending,
                batch.wf(),
                i <= batch.touched_tiles@.len(),
                self@ == (RoundTargetModel {
                    active_tiles: damaged(model.active_tiles, batch@, i as int),
                    pending_changes: changes(model.active_tiles, batch@, i as int),
                    ..model
                }),
            decreases batch.touched_tiles@.len() - i,
        {
            let ghost before = self@;
            let touched = batch.touched_tiles[i];
            assert(batch.touched_tiles@[i as int].key == batch.allocations@[i as int].key);
            let resident = Resident { key: touched.key, slot: batch.allocations[i].slot };
            let previous = match self.active_tiles.get(resident) {
                Some(existing) => Some(*existing),
                None => None,
            };
            let combined = match previous {
                Some(existing) => existing.union(touched.local_damage),
                None => touched.local_damage,
            };
            self.active_tiles.insert(resident, combined);
            self.pending_damage_changes.push((resident, previous));
            proof {
                assert(self@.active_tiles =~= damaged(model.active_tiles, batch@, i as int + 1));
                assert(self@.pending_changes =~= changes(
                    model.active_tiles,
                    batch@,
                    i as int + 1,
                ));
            }
            i += 1;
        }
    }

    /// Draws a batch: says what the device has to do, and takes note of the damage. An
    /// empty batch draws nothing.
    pub fn encode_batch(&mut self, batch: &RoundMaskBatch) -> (encoding: Result<
        RoundMaskEncoding,
        RoundMaskTargetError,
    >)
        requires
            old(self).wf(),
            batch.wf(),
        ensures
            final(self).wf(),
            encode_reported(old(self)@, batch@, encoding, final(self)@),
    {
        if !self.active {
            return Err(RoundMaskTargetError::StrokeNotActive);
        }
        if self.encoded_batch_pending {
            return Err(RoundMaskTargetError::BatchAwaitingSubmission);
        }
        if !batch.layout().same(self.layout) {
            return Err(
                RoundMaskTargetError::LayoutMismatch {
                    expected: self.layout,
                    actual: batch.layout(),
                },
            );
        }
        let ghost before = self@;
        let mut encoding = match self.list_work(batch) {
            Ok(encoding) => encoding,
            Err(error) => {
                proof {
                    if batch@.pages.len() == 0 {
                        assert(flat_work(batch@.pages).len() == 0);
                    }
                }
                return Err(error);
            },
        };
        if batch.pages.len() == 0 {
            return Ok(encoding);
        }
        proof {
            lemma_first_touched_len(before.active_tiles, flat_work(batch@.pages));
        }
        let round_bytes: u64 = encoding.round_instances.len() as u64 * ROUND_INSTANCE_BYTES;
        let clear_bytes: u64 = encoding.cleared.len() as u64 * CLEAR_INSTANCE_BYTES;
        match grown_capacity(
            self.round_buffer_capacity,
            round_bytes,
            self.limits.max_buffer_size,
        ) {
            Ok(capacity) => {
                self.round_buffer_capacity = capacity;
            },
            Err(error) => {
                assert(growth_fails(
                    before.round_capacity,
                    round_bytes,
                    before.limits.max_buffer_size,
                    error,
                ));
                return Err(buffer_error(error));
            },
        }
        match grown_capacity(
            self.clear_buffer_capacity,
            clear_bytes,
            self.limits.max_buffer_size,
        ) {
            Ok(capacity) => {
                self.clear_buffer_capacity = capacity;
            },
            Err(error) => {
                assert(growth_fails(
                    before.clear_capacity,
                    clear_bytes,
                    before.limits.max_buffer_size,
                    error,
                ));
                return Err(buffer_error(error));
            },
        }
        let highest: u32 = batch.pages[batch.pages.len() - 1].page.0;
        if highest >= self.layout.max_pages() {
            return Err(
                RoundMaskTargetError::PageOutOfRange {
                    page: highest,
                    maximum_pages: self.layout.max_pages(),
                },
            );
        }
        if self.pages <= highest as usize {
            self.pages = highest as usize + 1;
        }
        encoding.stats.retained_pages = self.pages as u32;
        self.encoded_batch_pending = true;
        assert(self@.pending_changes =~= before.pending_changes);
        self.add_damage(batch);
        Ok(encoding)
    }
}

/// Discarding a batch brings the damage back to what it was before the batch.
pub proof fn law_discarding_a_batch_restores_the_damage(
    active: Map<Resident, Rect>,
    batch: RoundBatchModel,
    n: int,
)
    requires
        0 <= n <= batch.touched_tiles.len(),
    ensures
        taken_back(damaged(active, batch, n), changes(active, batch, n)) == active,
    decreases n,
{
    if n > 0 {
        law_discarding_a_batch_restores_the_damage(active, batch, n - 1);
        let before = damaged(active, batch, n - 1);
        let after = damaged(active, batch, n);
        let resident = touched_resident(batch, n - 1);
        let list = changes(active, batch, n);
        assert(list.drop_last() =~= changes(active, batch, n - 1));
        if before.contains_key(resident) {
            assert(after.insert(resident, before[resident]) =~= before);
        } else {
            assert(after.remove(resident) =~= before);
        }
    }
}

/// By page, by place in the page, by layer, by row, by column.
pub open spec fn residents_in_order(first: Resident, second: Resident) -> bool {
    if first.slot.page.0 != second.slot.page.0 {
        first.slot.page.0 < second.slot.page.0
    } else if first.slot.slot_in_page != second.slot.slot_in_page {
        first.slot.slot_in_page < second.slot.slot_in_page
    } else if first.key.layer.0 != second.key.layer.0 {
        first.key.layer.0 < second.key.layer.0
    } else if first.key.tile.y != second.key.tile.y {
        first.key.tile.y < second.key.tile.y
    } else {
        first.key.tile.x <= second.key.tile.x
    }
}

} // verus!
