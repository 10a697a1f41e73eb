//! Which blocks of a document have to be kept to take an edit back.

use crate::gpu_atlas::{AtlasLayout, AtlasSlot, LayerTileKey};
use crate::gpu_round_target::{active_list, ActiveRoundMaskTile, RoundMaskTarget};
use crate::keyed_map::Key;
use crate::ordering::{lemma_sorted_contains, sort, stable_sorted};
use crate::raster::{Rect, RectU32};
use vstd::prelude::*;

verus! {

/// The side of the square blocks in which undo data is copied, in pixels.
pub const GPU_UNDO_BLOCK_SIZE: u32 = 16;

/// Four single precision channels.
pub const GPU_UNDO_PIXEL_BYTES: u32 = 16;

pub const GPU_UNDO_BLOCK_BYTES: u64 = 4096;

/// One rectangle that is copied between a tile and a buffer.
#[derive(Clone, Copy, Debug, PartialEq, Eq)]
pub struct GpuUndoCopyRegion {
    pub key: LayerTileKey,
    pub slot: AtlasSlot,
    pub local_bounds: RectU32,
    pub physical_origin: [u32; 2],
    pub extent: [u32; 2],
    pub buffer_offset: u64,
    pub bytes_per_row: u32,
    pub block_count: u32,
}

impl GpuUndoCopyRegion {
    pub open spec fn spec_byte_len(self) -> int {
        self.bytes_per_row * self.extent[1]
    }

    pub fn byte_len(self) -> (len: u64)
        ensures
            len == self.spec_byte_len(),
    {
        proof {
            lemma_area_fits(self.bytes_per_row as int, self.extent[1] as int);
        }
        self.bytes_per_row as u64 * self.extent[1] as u64
    }
}

pub proof fn lemma_area_fits(a: int, b: int)
    requires
        0 <= a <= u32::MAX,
        0 <= b <= u32::MAX,
    ensures
        0 <= a * b <= u64::MAX,
{
    assert(0 <= a * b <= u32::MAX * u32::MAX) by (nonlinear_arith)
        requires
            0 <= a <= u32::MAX,
            0 <= b <= u32::MAX,
    ;
}

/// The smallest rectangle of whole blocks that covers `damage`.
pub open spec fn block_rounded(damage: Rect) -> Rect {
    Rect {
        min_x: damage.min_x / 16 * 16,
        min_y: damage.min_y / 16 * 16,
        max_x: (damage.max_x + 15) / 16 * 16,
        max_y: (damage.max_y + 15) / 16 * 16,
    }
}

pub open spec fn block_aligned(bounds: Rect) -> bool {
    &&& bounds.min_x % 16 == 0
    &&& bounds.min_y % 16 == 0
    &&& bounds.max_x % 16 == 0
    &&& bounds.max_y % 16 == 0
}

pub open spec fn block_count_of(bounds: Rect) -> int {
    (bounds.width() / 16) * (bounds.height() / 16)
}

pub open spec fn byte_len_of(bounds: Rect) -> int {
    bounds.width() * 16 * bounds.height()
}

/// Where `tile` stands among the entries, or their number when it is new.
pub open spec fn entry_index(
    entries: Seq<ActiveRoundMaskTile>,
    tile: ActiveRoundMaskTile,
) -> int
    decreases entries.len(),
{
    if entries.len() == 0 {
        0
    } else if entries[0].key == tile.key && entries[0].slot == tile.slot {
        0
    } else {
        1 + entry_index(entries.drop_first(), tile)
    }
}

/// The entries after the damage of `tile` has been added to its entry.
pub open spec fn merge_one(
    entries: Seq<ActiveRoundMaskTile>,
    tile: ActiveRoundMaskTile,
) -> Seq<ActiveRoundMaskTile> {
    let index = entry_index(entries, tile);
    if index < entries.len() {
        entries.update(
            index,
            ActiveRoundMaskTile {
                local_damage: entries[index].local_damage.spec_union(tile.local_damage),
                ..entries[index]
            },
        )
    } else {
        entries.push(tile)
    }
}

/// One entry for each tile, with all of its damage.
pub open spec fn merged(tiles: Seq<ActiveRoundMaskTile>) -> Seq<ActiveRoundMaskTile>
    decreases tiles.len(),
{
    if tiles.len() == 0 {
        Seq::empty()
    } else {
        merge_one(merged(tiles.drop_last()), tiles.last())
    }
}

/// The entries in the order in which they are copied.
pub open spec fn capture_entries(tiles: Seq<ActiveRoundMaskTile>) -> Seq<ActiveRoundMaskTile> {
    stable_sorted(merged(tiles))
}

pub open spec fn inside_tile(tile: ActiveRoundMaskTile, tile_size: int) -> bool {
    &&& tile.local_damage@.nonempty()
    &&& tile.local_damage@.max_x <= tile_size
    &&& tile.local_damage@.max_y <= tile_size
}

/// No earlier tile claims the same place for another key.
pub open spec fn occupant_agrees(tiles: Seq<ActiveRoundMaskTile>, i: int) -> bool {
    forall|j: int| 0 <= j < i && (#[trigger] tiles[j]).slot == tiles[i].slot ==> tiles[j].key
        == tiles[i].key
}

/// The first `n` tiles lie inside their tiles and agree on who lives where.
pub open spec fn tiles_agree(tiles: Seq<ActiveRoundMaskTile>, tile_size: int, n: int) -> bool {
    forall|i: int|
        0 <= i < n ==> #[trigger] inside_tile(tiles[i], tile_size) && occupant_agrees(tiles, i)
}

pub open spec fn total_blocks(entries: Seq<ActiveRoundMaskTile>) -> int
    decreases entries.len(),
{
    if entries.len() == 0 {
        0
    } else {
        total_blocks(entries.drop_last()) + block_count_of(
            block_rounded(entries.last().local_damage@),
        )
    }
}

pub open spec fn total_bytes(entries: Seq<ActiveRoundMaskTile>) -> int
    decreases entries.len(),
{
    if entries.len() == 0 {
        0
    } else {
        total_bytes(entries.drop_last()) + byte_len_of(block_rounded(entries.last().local_damage@))
    }
}

/// Every number that describes the entry's copy can be written down.
pub open spec fn entry_fits(entry: ActiveRoundMaskTile) -> bool {
    let bounds = block_rounded(entry.local_damage@);
    &&& block_count_of(bounds) <= u32::MAX
    &&& bounds.width() * 16 <= u32::MAX
    &&& entry.slot.origin_x + bounds.min_x <= u32::MAX
    &&& entry.slot.origin_y + bounds.min_y <= u32::MAX
}

pub open spec fn plan_fits(entries: Seq<ActiveRoundMaskTile>) -> bool {
    &&& forall|i: int| 0 <= i < entries.len() ==> entry_fits(#[trigger] entries[i])
    &&& total_blocks(entries) <= u32::MAX
    &&& total_bytes(entries) <= u64::MAX
}

/// The region copies the whole blocks of the entry to the given offset.
pub open spec fn region_matches(
    region: GpuUndoCopyRegion,
    entry: ActiveRoundMaskTile,
    offset: int,
) -> bool {
    let bounds = block_rounded(entry.local_damage@);
    &&& region.key == entry.key
    &&& region.slot == entry.slot
    &&& region.local_bounds@ == bounds
    &&& region.physical_origin[0] == entry.slot.origin_x + bounds.min_x
    &&& region.physical_origin[1] == entry.slot.origin_y + bounds.min_y
    &&& region.extent[0] == bounds.width()
    &&& region.extent[1] == bounds.height()
    &&& region.buffer_offset == offset
    &&& region.bytes_per_row == bounds.width() * 16
    &&& region.block_count == block_count_of(bounds)
}

pub open spec fn regions_match(
    regions: Seq<GpuUndoCopyRegion>,
    entries: Seq<ActiveRoundMaskTile>,
) -> bool {
    &&& regions.len() == entries.len()
    &&& forall|i: int|
        0 <= i < regions.len() ==> region_matches(
            #[trigger] regions[i],
            entries[i],
            total_bytes(entries.subrange(0, i)),
        )
}

pub open spec fn region_blocks(regions: Seq<GpuUndoCopyRegion>) -> int
    decreases regions.len(),
{
    if regions.len() == 0 {
        0
    } else {
        region_blocks(regions.drop_last()) + regions.last().block_count
    }
}

pub open spec fn region_bytes(regions: Seq<GpuUndoCopyRegion>) -> int
    decreases regions.len(),
{
    if regions.len() == 0 {
        0
    } else {
        region_bytes(regions.drop_last()) + regions.last().spec_byte_len()
    }
}

/// The region is made of whole blocks and its numbers describe its bounds.
pub open spec fn region_valid(region: GpuUndoCopyRegion) -> bool {
    &&& region.local_bounds@.nonempty()
    &&& block_aligned(region.local_bounds@)
    &&& region.extent[0] == region.local_bounds@.width()
    &&& region.extent[1] == region.local_bounds@.height()
    &&& region.bytes_per_row == region.local_bounds@.width() * 16
    &&& region.block_count == block_count_of(region.local_bounds@)
}

/// The rectangles that an edit will overwrite, packed into one buffer.
#[derive(Clone, Debug, PartialEq, Eq)]
pub struct GpuUndoCapturePlan {
    pub(crate) layout: AtlasLayout,
    pub(crate) regions: Vec<GpuUndoCopyRegion>,
    pub(crate) block_count: u32,
    pub(crate) byte_len: u64,
}

pub struct CapturePlanModel {
    pub layout: AtlasLayout,
    pub regions: Seq<GpuUndoCopyRegion>,
    pub block_count: int,
    pub byte_len: int,
}

impl View for GpuUndoCapturePlan {
    type V = CapturePlanModel;

    open(crate) spec fn view(&self) -> CapturePlanModel {
        CapturePlanModel {
            layout: self.layout,
            regions: self.regions@,
            block_count: self.block_count as int,
            byte_len: self.byte_len as int,
        }
    }
}

#[derive(Clone, Copy, Debug, PartialEq, Eq, Structural)]
pub enum GpuUndoPlanError {
    TileSizeNotBlockAligned { tile_size: u32, block_size: u32 },
    BlockRowNotCopyAligned,
    DamageOutsideTile { key: LayerTileKey, damage: RectU32, tile_size: u32 },
    ConflictingSlotOccupants { slot: AtlasSlot, first: LayerTileKey, second: LayerTileKey },
    ArithmeticOverflow,
}

#[derive(Clone, Copy, Debug, PartialEq, Eq, Structural)]
pub enum GpuUndoResourceError {
    EmptyCapture,
    BufferTooLarge { requested: u64, maximum: u64 },
}

/// Whether a tile holds pixels in the document, and whether it does in the
/// memento that would take its place.
#[derive(Clone, Copy, Debug, PartialEq, Eq, Structural)]
pub struct GpuMementoResidentState {
    pub key: LayerTileKey,
    pub slot: AtlasSlot,
    pub document_initialized: bool,
    pub memento_initialized: bool,
}

impl GpuMementoResidentState {
    pub open spec fn swapped(self) -> GpuMementoResidentState {
        GpuMementoResidentState {
            document_initialized: self.memento_initialized,
            memento_initialized: self.document_initialized,
            ..self
        }
    }
}

/// What an edit overwrote: the plan of its pixels, and which tiles held any.
#[derive(Clone, Debug, PartialEq, Eq)]
pub struct GpuDocumentMemento {
    pub(crate) plan: GpuUndoCapturePlan,
    pub(crate) resident_states: Vec<GpuMementoResidentState>,
}

pub struct MementoModel {
    pub plan: CapturePlanModel,
    pub states: Seq<GpuMementoResidentState>,
}

impl View for GpuDocumentMemento {
    type V = MementoModel;

    open(crate) spec fn view(&self) -> MementoModel {
        MementoModel { plan: self.plan@, states: self.resident_states@ }
    }
}

/// The states that stand beside the regions of a plan once its edit is in the
/// document: every tile is filled, and the memento holds what was there before.
pub open spec fn captured_states(
    regions: Seq<GpuUndoCopyRegion>,
    prior: Seq<bool>,
) -> Seq<GpuMementoResidentState> {
    Seq::new(
        regions.len(),
        |i: int|
            GpuMementoResidentState {
                key: regions[i].key,
                slot: regions[i].slot,
                document_initialized: true,
                memento_initialized: prior[i],
            },
    )
}

pub open spec fn swapped_states(states: Seq<GpuMementoResidentState>) -> Seq<
    GpuMementoResidentState,
> {
    Seq::new(states.len(), |i: int| states[i].swapped())
}

/// One state for each region, in the same order.
pub open spec fn states_match(
    regions: Seq<GpuUndoCopyRegion>,
    states: Seq<GpuMementoResidentState>,
) -> bool {
    &&& states.len() == regions.len()
    &&& forall|i: int|
        0 <= i < states.len() ==> (#[trigger] states[i]).key == regions[i].key && states[i].slot
            == regions[i].slot
}

/// Two swaps cancel each other.
pub proof fn law_state_swap_is_its_own_inverse(states: Seq<GpuMementoResidentState>)
    ensures
        swapped_states(swapped_states(states)) == states,
{
    assert(swapped_states(swapped_states(states)) =~= states);
}

impl GpuDocumentMemento {
    pub open spec fn wf(self) -> bool {
        states_match(self@.plan.regions, self@.states)
    }

    /// A memento for `plan`, where `prior_initialized` says which of its tiles
    /// held pixels before the edit.
    pub fn new(plan: GpuUndoCapturePlan, prior_initialized: &Vec<bool>, max_buffer_size: u64) -> (
    memento: Result<GpuDocumentMemento, GpuUndoResourceError>)
        requires
            prior_initialized@.len() == plan@.regions.len(),
        ensures
            match memento {
                Ok(memento) => {
                    &&& plan@.regions.len() > 0
                    &&& plan@.byte_len <= max_buffer_size
                    &&& memento.wf()
                    &&& memento@ == (MementoModel {
                        plan: plan@,
                        states: captured_states(plan@.regions, prior_initialized@),
                    })
                },
                Err(GpuUndoResourceError::EmptyCapture) => plan@.regions.len() == 0,
                Err(GpuUndoResourceError::BufferTooLarge { requested, maximum }) => {
                    &&& plan@.regions.len() > 0
                    &&& requested == plan@.byte_len
                    &&& maximum == max_buffer_size
                    &&& requested > maximum
                },
            },
    {
        if plan.is_empty() {
            return Err(GpuUndoResourceError::EmptyCapture);
        }
        if plan.byte_len() > max_buffer_size {
            return Err(
                GpuUndoResourceError::BufferTooLarge {
                    requested: plan.byte_len(),
                    maximum: max_buffer_size,
                },
            );
        }
        let mut resident_states: Vec<GpuMementoResidentState> = Vec::new();
        let mut i: usize = 0;
        while i < plan.regions.len()
            invariant
                i <= plan.regions@.len(),
                prior_initialized@.len() == plan.regions@.len(),
                resident_states@ == captured_states(
                    plan.regions@,
                    prior_initialized@,
                ).subrange(0, i as int),
            decreases plan.regions@.len() - i,
        {
            resident_states.push(
                GpuMementoResidentState {
                    key: plan.regions[i].key,
                    slot: plan.regions[i].slot,
                    document_initialized: true,
                    memento_initialized: prior_initialized[i],
                },
            );
            i += 1;
            assert(resident_states@ =~= captured_states(
                plan.regions@,
                prior_initialized@,
            ).subrange(0, i as int));
        }
        assert(resident_states@ =~= captured_states(plan.regions@, prior_initialized@));
        Ok(GpuDocumentMemento { plan, resident_states })
    }

    pub fn plan(&self) -> (plan: &GpuUndoCapturePlan)
        ensures
            plan@ == self@.plan,
    {
        &self.plan
    }

    pub fn resident_states(&self) -> (states: &Vec<GpuMementoResidentState>)
        ensures
            states@ == self@.states,
    {
        &self.resident_states
    }

    pub fn block_count(&self) -> (count: u32)
        ensures
            count == self@.plan.block_count,
    {
        self.plan.block_count()
    }

    pub fn byte_len(&self) -> (len: u64)
        ensures
            len == self@.plan.byte_len,
    {
        self.plan.byte_len()
    }

    /// Notes that document and memento have traded their pixels.
    pub fn swap_resident_states(&mut self)
        requires
            old(self).wf(),
        ensures
            final(self).wf(),
            final(self)@ == (MementoModel {
                plan: old(self)@.plan,
                states: swapped_states(old(self)@.states),
            }),
    {
        let ghost before = self.resident_states@;
        let mut i: usize = 0;
        while i < self.resident_states.len()
            invariant
                i <= self.resident_states@.len(),
                self.resident_states@.len() == before.len(),
                self.plan == old(self).plan,
                forall|j: int|
                    0 <= j < before.len() ==> #[trigger] self.resident_states@[j] == (if j < i {
                        before[j].swapped()
                    } else {
                        before[j]
                    }),
            decreases self.resident_states@.len() - i,
        {
            let state = self.resident_states[i];
            self.resident_states.set(
                i,
                GpuMementoResidentState {
                    key: state.key,
                    slot: state.slot,
                    document_initialized: state.memento_initialized,
                    memento_initialized: state.document_initialized,
                },
            );
            i += 1;
        }
        assert(self.resident_states@ =~= swapped_states(before));
    }
}

/// Whether a plan, or an error, is what the touched tiles come to.
pub open spec fn capture_planned(
    layout: AtlasLayout,
    tiles: Seq<ActiveRoundMaskTile>,
    plan: Result<GpuUndoCapturePlan, GpuUndoPlanError>,
) -> bool {
    let entries = capture_entries(tiles);
    let tile_size = layout@.tile_size;
    match plan {
        Ok(plan) => {
            &&& tile_size % 16 == 0
            &&& tiles_agree(tiles, tile_size, tiles.len() as int)
            &&& plan_fits(entries)
            &&& plan.wf()
            &&& plan@.layout == layout
            &&& regions_match(plan@.regions, entries)
            &&& plan@.block_count == total_blocks(entries)
            &&& plan@.byte_len == total_bytes(entries)
        },
        Err(GpuUndoPlanError::TileSizeNotBlockAligned { tile_size: t, block_size }) => {
            &&& tile_size % 16 != 0
            &&& t == tile_size
            &&& block_size == 16
        },
        Err(GpuUndoPlanError::BlockRowNotCopyAligned) => false,
        Err(GpuUndoPlanError::DamageOutsideTile { key, damage, tile_size: t }) => {
            &&& tile_size % 16 == 0
            &&& t == tile_size
            &&& exists|i: int|
                #![trigger tiles[i]]
                0 <= i < tiles.len() && tiles_agree(tiles, tile_size, i)
                    && !inside_tile(tiles[i], tile_size) && key == tiles[i].key
                    && damage == tiles[i].local_damage
        },
        Err(GpuUndoPlanError::ConflictingSlotOccupants { slot, first, second }) => {
            &&& tile_size % 16 == 0
            &&& exists|i: int, j: int|
                #![trigger tiles[i], tiles[j]]
                0 <= j < i < tiles.len() && tiles_agree(tiles, tile_size, i)
                    && inside_tile(tiles[i], tile_size) && slot == tiles[i].slot
                    && tiles[j].slot == slot && first == tiles[j].key && second
                    == tiles[i].key && first != second
        },
        Err(GpuUndoPlanError::ArithmeticOverflow) => {
            &&& tile_size % 16 == 0
            &&& tiles_agree(tiles, tile_size, tiles.len() as int)
            &&& !plan_fits(entries)
        },
    }
}

impl GpuUndoCapturePlan {
    /// Regions of whole blocks, and totals that count them.
    pub open spec fn wf(self) -> bool {
        &&& forall|i: int|
            0 <= i < self@.regions.len() ==> region_valid(#[trigger] self@.regions[i])
        &&& self@.block_count == region_blocks(self@.regions)
        &&& self@.byte_len == region_bytes(self@.regions)
    }

    /// Plans the copy of everything that the last stroke on a mask touched.
    pub fn from_mask(mask: &RoundMaskTarget) -> (plan: Result<GpuUndoCapturePlan, GpuUndoPlanError>)
        requires
            mask.wf(),
        ensures
            exists|tiles: Seq<ActiveRoundMaskTile>|
                {
                    &&& #[trigger] active_list(mask@.active_tiles, tiles)
                    &&& capture_planned(mask@.layout, tiles, plan)
                },
    {
        let tiles = mask.active_tiles();
        Self::from_active_tiles(mask.layout(), &tiles)
    }

    /// Plans the copy of everything that `active_tiles` touch.
    pub fn from_active_tiles(layout: AtlasLayout, active_tiles: &Vec<ActiveRoundMaskTile>) -> (plan:
        Result<GpuUndoCapturePlan, GpuUndoPlanError>)
        ensures
            capture_planned(layout, active_tiles@, plan),
    {
        match validate_layout(layout) {
            Ok(_) => {},
            Err(error) => {
                return Err(error);
            },
        }
        let tile_size: u32 = layout.tile_size();
        let ghost tiles = active_tiles@;
        let mut entries: Vec<ActiveRoundMaskTile> = Vec::new();
        let mut i: usize = 0;
        assert(tiles.subrange(0, 0) =~= Seq::<ActiveRoundMaskTile>::empty());
        while i < active_tiles.len()
            invariant
                tiles == active_tiles@,
                i <= tiles.len(),
                tile_size == layout@.tile_size,
                layout@.tile_size % 16 == 0,
                tiles_agree(tiles, layout@.tile_size, i as int),
                entries@ == merged(tiles.subrange(0, i as int)),
            decreases tiles.len() - i,
        {
            let active = active_tiles[i];
            if active.local_damage.max_x() > tile_size || active.local_damage.max_y() > tile_size {
                assert(!inside_tile(tiles[i as int], layout@.tile_size));
                return Err(
                    GpuUndoPlanError::DamageOutsideTile {
                        key: active.key,
                        damage: active.local_damage,
                        tile_size,
                    },
                );
            }
            match find_occupant(active_tiles, i) {
                Some(j) => {
                    let previous = active_tiles[j].key;
                    if !previous.same(active.key) {
                        assert(tiles[j as int].slot == tiles[i as int].slot);
                        return Err(
                            GpuUndoPlanError::ConflictingSlotOccupants {
                                slot: active.slot,
                                first: previous,
                                second: active.key,
                            },
                        );
                    }
                    proof {
                        assert forall|k: int|
                            0 <= k < i && (#[trigger] tiles[k]).slot == tiles[i as int].slot implies
                            tiles[k].key == tiles[i as int].key by {
                            if k < j {
                                assert(inside_tile(tiles[j as int], layout@.tile_size));
                                assert(occupant_agrees(tiles, j as int));
                            } else if j < k {
                                assert(inside_tile(tiles[k], layout@.tile_size));
                                assert(occupant_agrees(tiles, k));
                                assert(tiles[j as int].slot == tiles[k].slot);
                            }
                        }
                    }
                },
                None => {},
            }
            merge_tile(&mut entries, active);
            proof {
                let prefix = tiles.subrange(0, i as int + 1);
                assert(prefix.drop_last() =~= tiles.subrange(0, i as int));
                assert(prefix.last() == tiles[i as int]);
                assert(occupant_agrees(tiles, i as int));
            }
            i += 1;
        }
        assert(tiles.subrange(0, i as int) =~= tiles);
        let sorted = sort(entries);
        proof {
            lemma_merged_inside(tiles, layout@.tile_size);
            assert forall|k: int| 0 <= k < sorted@.len() implies inside_tile(
                #[trigger] sorted@[k],
                layout@.tile_size,
            ) by {
                lemma_sorted_contains(merged(tiles), sorted@[k]);
                assert(sorted@.contains(sorted@[k]));
                let m = choose|m: int|
                    0 <= m < merged(tiles).len() && merged(tiles)[m] == sorted@[k];
                assert(inside_tile(merged(tiles)[m], layout@.tile_size));
            }
        }
        plan_regions(layout, &sorted)
    }

    pub fn layout(&self) -> (layout: AtlasLayout)
        ensures
            layout == self@.layout,
    {
        self.layout
    }

    pub fn regions(&self) -> (regions: &Vec<GpuUndoCopyRegion>)
        ensures
            regions@ == self@.regions,
    {
        &self.regions
    }

    pub fn block_count(&self) -> (count: u32)
        ensures
            count == self@.block_count,
    {
        self.block_count
    }

    pub fn byte_len(&self) -> (len: u64)
        ensures
            len == self@.byte_len,
    {
        self.byte_len
    }

    pub fn is_empty(&self) -> (empty: bool)
        ensures
            empty == (self@.regions.len() == 0),
    {
        self.regions.len() == 0
    }
}

/// The row alignment that texture copies need.
///
/// Trusted: the constant `wgpu::COPY_BYTES_PER_ROW_ALIGNMENT` is 256.
#[verifier::external_body]
pub(crate) fn copy_row_alignment() -> (bytes: u32)
    ensures
        bytes == 256,
{
    wgpu::COPY_BYTES_PER_ROW_ALIGNMENT
}

fn validate_layout(layout: AtlasLayout) -> (valid: Result<(), GpuUndoPlanError>)
    ensures
        valid == (if layout@.tile_size % 16 == 0 {
            Ok::<(), GpuUndoPlanError>(())
        } else {
            Err(
                GpuUndoPlanError::TileSizeNotBlockAligned {
                    tile_size: layout@.tile_size as u32,
                    block_size: 16,
                },
            )
        }),
{
    let tile_size: u32 = layout.tile_size();
    if tile_size % GPU_UNDO_BLOCK_SIZE != 0 {
        return Err(
            GpuUndoPlanError::TileSizeNotBlockAligned {
                tile_size,
                block_size: GPU_UNDO_BLOCK_SIZE,
            },
        );
    }
    if GPU_UNDO_BLOCK_SIZE * GPU_UNDO_PIXEL_BYTES != copy_row_alignment() {
        return Err(GpuUndoPlanError::BlockRowNotCopyAligned);
    }
    Ok(())
}

/// An earlier tile in the same place as tile `i`.
fn find_occupant(tiles: &Vec<ActiveRoundMaskTile>, i: usize) -> (found: Option<usize>)
    requires
        i < tiles@.len(),
    ensures
        match found {
            Some(j) => j < i && tiles@[j as int].slot == tiles@[i as int].slot,
            None => forall|j: int| 0 <= j < i ==> (#[trigger] tiles@[j]).slot
                != tiles@[i as int].slot,
        },
{
    let mut j: usize = 0;
    while j < i
        invariant
            i < tiles@.len(),
            j <= i,
            forall|k: int| 0 <= k < j ==> (#[trigger] tiles@[k]).slot != tiles@[i as int].slot,
        decreases i - j,
    {
        if tiles[j].slot.same(tiles[i].slot) {
            return Some(j);
        }
        j += 1;
    }
    None
}

proof fn lemma_entry_index(
    entries: Seq<ActiveRoundMaskTile>,
    tile: ActiveRoundMaskTile,
    index: int,
)
    requires
        0 <= index <= entries.len(),
        forall|i: int|
            0 <= i < index ==> !((#[trigger] entries[i]).key == tile.key && entries[i].slot
                == tile.slot),
        index < entries.len() ==> entries[index].key == tile.key && entries[index].slot
            == tile.slot,
    ensures
        entry_index(entries, tile) == index,
    decreases entries.len(),
{
    if entries.len() > 0 && index > 0 {
        assert(!(entries[0].key == tile.key && entries[0].slot == tile.slot));
        let rest = entries.drop_first();
        assert forall|i: int| 0 <= i < index - 1 implies !((#[trigger] rest[i]).key == tile.key
            && rest[i].slot == tile.slot) by {
            assert(rest[i] == entries[i + 1]);
        }
        lemma_entry_index(rest, tile, index - 1);
    }
}

/// Adds the damage of a tile to its entry.
fn merge_tile(entries: &mut Vec<ActiveRoundMaskTile>, tile: ActiveRoundMaskTile)
    ensures
        final(entries)@ == merge_one(old(entries)@, tile),
{
    let mut i: usize = 0;
    while i < entries.len()
        invariant
            entries@ == old(entries)@,
            i <= entries@.len(),
            forall|k: int|
                0 <= k < i ==> !((#[trigger] entries@[k]).key == tile.key && entries@[k].slot
                    == tile.slot),
        decreases entries@.len() - i,
    {
        let entry = entries[i];
        if entry.key.same(tile.key) && entry.slot.same(tile.slot) {
            proof {
                lemma_entry_index(entries@, tile, i as int);
            }
            let local_damage = entry.local_damage.union(tile.local_damage);
            entries.set(
                i,
                ActiveRoundMaskTile { key: entry.key, slot: entry.slot, local_damage },
            );
            return ;
        }
        i += 1;
    }
    proof {
        lemma_entry_index(entries@, tile, i as int);
    }
    entries.push(tile);
}

proof fn lemma_entry_index_bounds(entries: Seq<ActiveRoundMaskTile>, tile: ActiveRoundMaskTile)
    ensures
        0 <= entry_index(entries, tile) <= entries.len(),
        entry_index(entries, tile) < entries.len() ==> {
            &&& entries[entry_index(entries, tile)].key == tile.key
            &&& entries[entry_index(entries, tile)].slot == tile.slot
        },
        entry_index(entries, tile) == entries.len() ==> forall|i: int|
            0 <= i < entries.len() ==> !((#[trigger] entries[i]).key == tile.key
                && entries[i].slot == tile.slot),
    decreases entries.len(),
{
    if entries.len() > 0 && !(entries[0].key == tile.key && entries[0].slot == tile.slot) {
        let rest = entries.drop_first();
        lemma_entry_index_bounds(rest, tile);
        assert forall|i: int|
            entry_index(entries, tile) == entries.len() && 0 <= i < entries.len() implies !((
        #[trigger] entries[i]).key == tile.key && entries[i].slot == tile.slot) by {
            if i > 0 {
                assert(rest[i - 1] == entries[i]);
            }
        }
    }
}

proof fn lemma_merged_inside(tiles: Seq<ActiveRoundMaskTile>, tile_size: int)
    requires
        tiles_agree(tiles, tile_size, tiles.len() as int),
    ensures
        forall|i: int|
            0 <= i < merged(tiles).len() ==> inside_tile(#[trigger] merged(tiles)[i], tile_size),
    decreases tiles.len(),
{
    if tiles.len() > 0 {
        let rest = tiles.drop_last();
        assert(tiles_agree(rest, tile_size, rest.len() as int)) by {
            assert forall|i: int| 0 <= i < rest.len() implies #[trigger] inside_tile(
                rest[i],
                tile_size,
            ) && occupant_agrees(rest, i) by {
                assert(inside_tile(tiles[i], tile_size) && occupant_agrees(tiles, i));
                assert forall|j: int| 0 <= j < i && (#[trigger] rest[j]).slot == rest[i].slot implies
                    rest[j].key == rest[i].key by {
                    assert(tiles[j].slot == tiles[i].slot);
                }
            }
        }
        lemma_merged_inside(rest, tile_size);
        lemma_entry_index_bounds(merged(rest), tiles.last());
        assert(inside_tile(tiles[tiles.len() - 1], tile_size));
    }
}

proof fn lemma_rounded(damage: Rect)
    requires
        damage.nonempty(),
        0 <= damage.min_x,
        0 <= damage.min_y,
    ensures
        block_aligned(block_rounded(damage)),
        block_rounded(damage).nonempty(),
        block_rounded(damage).covers(damage),
        block_rounded(damage).min_x >= 0,
        block_rounded(damage).min_y >= 0,
        block_rounded(damage).width() >= 16,
        block_rounded(damage).height() >= 16,
{
}

proof fn lemma_rounded_inside(damage: Rect, size: int)
    requires
        size % 16 == 0,
        damage.max_x <= size,
        damage.max_y <= size,
    ensures
        block_rounded(damage).max_x <= size,
        block_rounded(damage).max_y <= size,
{
}

/// The smallest rectangle of whole blocks that covers `damage`, inside its tile.
fn round_damage_to_blocks(damage: RectU32) -> (rounded: Result<RectU32, GpuUndoPlanError>)
    ensures
        match rounded {
            Ok(rounded) => rounded@ == block_rounded(damage@) && rounded@.nonempty(),
            Err(error) => error == GpuUndoPlanError::ArithmeticOverflow && (block_rounded(
                damage@,
            ).max_x > u32::MAX || block_rounded(damage@).max_y > u32::MAX),
        },
{
    let min_x: u32 = damage.min_x() / GPU_UNDO_BLOCK_SIZE * GPU_UNDO_BLOCK_SIZE;
    let min_y: u32 = damage.min_y() / GPU_UNDO_BLOCK_SIZE * GPU_UNDO_BLOCK_SIZE;
    let max_x = match blocks_up(damage.max_x()).checked_mul(GPU_UNDO_BLOCK_SIZE) {
        Some(max_x) => max_x,
        None => {
            return Err(GpuUndoPlanError::ArithmeticOverflow);
        },
    };
    let max_y = match blocks_up(damage.max_y()).checked_mul(GPU_UNDO_BLOCK_SIZE) {
        Some(max_y) => max_y,
        None => {
            return Err(GpuUndoPlanError::ArithmeticOverflow);
        },
    };
    match RectU32::from_min_max(min_x, min_y, max_x, max_y) {
        Some(rounded) => Ok(rounded),
        None => Err(GpuUndoPlanError::ArithmeticOverflow),
    }
}

/// How many blocks it takes to hold `pixels` pixels.
fn blocks_up(pixels: u32) -> (blocks: u32)
    ensures
        blocks == (pixels + 15) / 16,
{
    let whole: u32 = pixels / GPU_UNDO_BLOCK_SIZE;
    if pixels % GPU_UNDO_BLOCK_SIZE == 0 {
        whole
    } else {
        whole + 1
    }
}

proof fn lemma_totals_grow(entries: Seq<ActiveRoundMaskTile>, end: int)
    requires
        0 <= end <= entries.len(),
        forall|i: int|
            0 <= i < entries.len() ==> (#[trigger] entries[i]).local_damage@.nonempty(),
    ensures
        0 <= total_blocks(entries.subrange(0, end)) <= total_blocks(entries),
        0 <= total_bytes(entries.subrange(0, end)) <= total_bytes(entries),
    decreases entries.len(),
{
    if end == entries.len() {
        assert(entries.subrange(0, end) =~= entries);
        if entries.len() > 0 {
            let rest = entries.drop_last();
            assert forall|i: int| 0 <= i < rest.len() implies (
            #[trigger] rest[i]).local_damage@.nonempty() by {
                assert(rest[i] == entries[i]);
            }
            lemma_totals_grow(rest, rest.len() as int);
            assert(rest.subrange(0, rest.len() as int) =~= rest);
            lemma_entry_sizes(entries.last().local_damage@);
        }
    } else {
        let rest = entries.drop_last();
        assert forall|i: int| 0 <= i < rest.len() implies (
        #[trigger] rest[i]).local_damage@.nonempty() by {
            assert(rest[i] == entries[i]);
        }
        lemma_totals_grow(rest, end);
        assert(rest.subrange(0, end) =~= entries.subrange(0, end));
        lemma_entry_sizes(entries[entries.len() - 1].local_damage@);
    }
}

proof fn lemma_entry_sizes(damage: Rect)
    requires
        damage.nonempty(),
        0 <= damage.min_x,
        0 <= damage.min_y,
    ensures
        block_count_of(block_rounded(damage)) >= 1,
        byte_len_of(block_rounded(damage)) >= 4096,
{
    lemma_rounded(damage);
    let bounds = block_rounded(damage);
    let w = bounds.width();
    let h = bounds.height();
    assert((w / 16) * (h / 16) >= 1) by (nonlinear_arith)
        requires
            w / 16 >= 1,
            h / 16 >= 1,
    ;
    assert(w * 16 * h >= 4096) by (nonlinear_arith)
        requires
            w >= 16,
            h >= 16,
    ;
}

/// Lays the entries out one behind the other.
fn plan_regions(layout: AtlasLayout, entries: &Vec<ActiveRoundMaskTile>) -> (plan: Result<
    GpuUndoCapturePlan,
    GpuUndoPlanError,
>)
    requires
        layout@.tile_size % 16 == 0,
        forall|i: int|
            0 <= i < entries@.len() ==> inside_tile(#[trigger] entries@[i], layout@.tile_size),
    ensures
        match plan {
            Ok(plan) => {
                &&& plan_fits(entries@)
                &&& plan.wf()
                &&& plan@.layout == layout
                &&& regions_match(plan@.regions, entries@)
                &&& plan@.block_count == total_blocks(entries@)
                &&& plan@.byte_len == total_bytes(entries@)
            },
            Err(error) => error == GpuUndoPlanError::ArithmeticOverflow && !plan_fits(entries@),
        },
{
    let tile_size: u32 = layout.tile_size();
    let ghost all = entries@;
    let mut regions: Vec<GpuUndoCopyRegion> = Vec::new();
    let mut block_count: u32 = 0;
    let mut byte_len: u64 = 0;
    let mut i: usize = 0;
    proof {
        assert(all.subrange(0, 0) =~= Seq::<ActiveRoundMaskTile>::empty());
        assert forall|k: int| 0 <= k < all.len() implies (
        #[trigger] all[k]).local_damage@.nonempty() by {
            assert(inside_tile(all[k], layout@.tile_size));
        }
    }
    while i < entries.len()
        invariant
            all == entries@,
            tile_size == layout@.tile_size,
            tile_size % 16 == 0,
            forall|k: int| 0 <= k < all.len() ==> inside_tile(#[trigger] all[k], layout@.tile_size),
            forall|k: int| 0 <= k < all.len() ==> (#[trigger] all[k]).local_damage@.nonempty(),
            i <= all.len(),
            regions@.len() == i,
            forall|k: int|
                0 <= k < i ==> region_matches(
                    #[trigger] regions@[k],
                    all[k],
                    total_bytes(all.subrange(0, k)),
                ),
            forall|k: int| 0 <= k < i ==> region_valid(#[trigger] regions@[k]),
            forall|k: int| 0 <= k < i ==> entry_fits(#[trigger] all[k]),
            block_count == total_blocks(all.subrange(0, i as int)),
            byte_len == total_bytes(all.subrange(0, i as int)),
            block_count == region_blocks(regions@),
            byte_len == region_bytes(regions@),
        decreases all.len() - i,
    {
        let entry = entries[i];
        let ghost prefix = all.subrange(0, i as int + 1);
        proof {
            assert(prefix.drop_last() =~= all.subrange(0, i as int));
            assert(prefix.last() == all[i as int]);
            lemma_rounded(entry.local_damage@);
            lemma_rounded_inside(entry.local_damage@, layout@.tile_size);
            lemma_totals_grow(all, i as int + 1);
            assert(inside_tile(all[i as int], layout@.tile_size));
        }
        let local_bounds = match round_damage_to_blocks(entry.local_damage) {
            Ok(local_bounds) => local_bounds,
            Err(error) => {
                return Err(error);
            },
        };
        let ghost bounds = local_bounds@;
        let width: u32 = local_bounds.width();
        let height: u32 = local_bounds.height();
        let region_block_count = match (width / GPU_UNDO_BLOCK_SIZE).checked_mul(
            height / GPU_UNDO_BLOCK_SIZE,
        ) {
            Some(count) => count,
            None => {
                assert(!entry_fits(all[i as int]));
                return Err(GpuUndoPlanError::ArithmeticOverflow);
            },
        };
        let bytes_per_row = match width.checked_mul(GPU_UNDO_PIXEL_BYTES) {
            Some(bytes) => bytes,
            None => {
                assert(!entry_fits(all[i as int]));
                return Err(GpuUndoPlanError::ArithmeticOverflow);
            },
        };
        proof {
            lemma_area_fits(bytes_per_row as int, height as int);
        }
        let region_byte_len: u64 = bytes_per_row as u64 * height as u64;
        let (origin_x, origin_y) = match (
            entry.slot.origin_x.checked_add(local_bounds.min_x()),
            entry.slot.origin_y.checked_add(local_bounds.min_y()),
        ) {
            (Some(x), Some(y)) => (x, y),
            _ => {
                assert(!entry_fits(all[i as int]));
                return Err(GpuUndoPlanError::ArithmeticOverflow);
            },
        };
        let region = GpuUndoCopyRegion {
            key: entry.key,
            slot: entry.slot,
            local_bounds,
            physical_origin: [origin_x, origin_y],
            extent: [width, height],
            buffer_offset: byte_len,
            bytes_per_row,
            block_count: region_block_count,
        };
        let ghost earlier = regions@;
        regions.push(region);
        proof {
            assert(regions@.drop_last() =~= earlier);
            assert(region_matches(region, all[i as int], total_bytes(all.subrange(0, i as int))));
            assert(region_valid(region));
            assert(entry_fits(all[i as int]));
        }
        block_count = match block_count.checked_add(region_block_count) {
            Some(count) => count,
            None => {
                return Err(GpuUndoPlanError::ArithmeticOverflow);
            },
        };
        byte_len = match byte_len.checked_add(region_byte_len) {
            Some(len) => len,
            None => {
                return Err(GpuUndoPlanError::ArithmeticOverflow);
            },
        };
        i += 1;
    }
    assert(all.subrange(0, i as int) =~= all);
    Ok(GpuUndoCapturePlan { layout, regions, block_count, byte_len })
}

/// Whether an entry stands for the tile and reaches all of its damage.
pub open spec fn entry_covers(entry: ActiveRoundMaskTile, tile: ActiveRoundMaskTile) -> bool {
    &&& entry.key == tile.key
    &&& entry.slot == tile.slot
    &&& entry.local_damage@.covers(tile.local_damage@)
}

proof fn lemma_entry_found(entries: Seq<ActiveRoundMaskTile>, tile: ActiveRoundMaskTile)
    ensures
        0 <= entry_index(entries, tile) <= entries.len(),
        entry_index(entries, tile) < entries.len() ==> entries[entry_index(entries, tile)].key
            == tile.key && entries[entry_index(entries, tile)].slot == tile.slot,
    decreases entries.len(),
{
    if entries.len() > 0 {
        lemma_entry_found(entries.drop_first(), tile);
    }
}

proof fn lemma_merged_covers(tiles: Seq<ActiveRoundMaskTile>, i: int) -> (at: int)
    requires
        0 <= i < tiles.len(),
    ensures
        0 <= at < merged(tiles).len(),
        entry_covers(merged(tiles)[at], tiles[i]),
    decreases tiles.len(),
{
    let rest = tiles.drop_last();
    let entries = merged(rest);
    let index = entry_index(entries, tiles.last());
    lemma_entry_found(entries, tiles.last());
    if i < rest.len() {
        let at = lemma_merged_covers(rest, i);
        assert(rest[i] == tiles[i]);
        at
    } else {
        index
    }
}

/// A capture reads every damaged pixel: each tile's damage lies inside a region of that tile.
pub proof fn law_capture_covers_all_damage(
    layout: AtlasLayout,
    tiles: Seq<ActiveRoundMaskTile>,
    plan: GpuUndoCapturePlan,
    i: int,
)
    requires
        capture_planned(layout, tiles, Ok(plan)),
        0 <= i < tiles.len(),
    ensures
        exists|r: int|
            0 <= r < plan@.regions.len() && (#[trigger] plan@.regions[r]).key == tiles[i].key
                && plan@.regions[r].slot == tiles[i].slot
                && plan@.regions[r].local_bounds@.covers(tiles[i].local_damage@),
{
    let entries = capture_entries(tiles);
    let at = lemma_merged_covers(tiles, i);
    let entry = merged(tiles)[at];
    lemma_sorted_contains(merged(tiles), entry);
    assert(merged(tiles).contains(entry));
    let r = choose|r: int| 0 <= r < entries.len() && entries[r] == entry;
    assert(region_matches(plan@.regions[r], entries[r], total_bytes(entries.subrange(0, r))));
    assert(plan@.regions[r].key == tiles[i].key);
}

proof fn lemma_total_bytes_grows(entries: Seq<ActiveRoundMaskTile>, i: int, j: int)
    requires
        0 <= i <= j <= entries.len(),
        forall|k: int| 0 <= k < entries.len() ==> byte_len_of(
            block_rounded((#[trigger] entries[k]).local_damage@),
        ) >= 0,
    ensures
        total_bytes(entries.subrange(0, i)) <= total_bytes(entries.subrange(0, j)),
    decreases j,
{
    if i < j {
        lemma_total_bytes_grows(entries, i, j - 1);
        assert(entries.subrange(0, j).drop_last() =~= entries.subrange(0, j - 1));
        assert(entries.subrange(0, j).last() == entries[j - 1]);
    }
}

/// The regions of a capture lie one after the other in its buffer, and fill it.
pub proof fn law_capture_regions_do_not_overlap_in_the_buffer(
    layout: AtlasLayout,
    tiles: Seq<ActiveRoundMaskTile>,
    plan: GpuUndoCapturePlan,
    i: int,
    j: int,
)
    requires
        capture_planned(layout, tiles, Ok(plan)),
        0 <= i < j <= plan@.regions.len(),
    ensures
        plan@.regions[i].buffer_offset + plan@.regions[i].spec_byte_len() <= if j
            < plan@.regions.len() {
            plan@.regions[j].buffer_offset as int
        } else {
            plan@.byte_len
        },
{
    let entries = capture_entries(tiles);
    assert forall|k: int| 0 <= k < entries.len() implies byte_len_of(
        block_rounded((#[trigger] entries[k]).local_damage@),
    ) >= 0 by {
        assert(region_matches(plan@.regions[k], entries[k], total_bytes(entries.subrange(0, k))));
        assert(region_valid(plan@.regions[k]));
        let bounds = block_rounded(entries[k].local_damage@);
        assert(bounds.width() * 16 * bounds.height() >= 0) by (nonlinear_arith)
            requires
                bounds.width() >= 0,
                bounds.height() >= 0,
        ;
    }
    let region = plan@.regions[i];
    let bounds = block_rounded(entries[i].local_damage@);
    assert(region_matches(region, entries[i], total_bytes(entries.subrange(0, i))));
    assert(region.spec_byte_len() == byte_len_of(bounds));
    assert(entries.subrange(0, i + 1).drop_last() =~= entries.subrange(0, i));
    assert(entries.subrange(0, i + 1).last() == entries[i]);
    lemma_total_bytes_grows(entries, i + 1, j);
    if j < plan@.regions.len() {
        assert(region_matches(plan@.regions[j], entries[j], total_bytes(entries.subrange(0, j))));
    } else {
        assert(entries.subrange(0, j) =~= entries);
    }
}

} // verus!
