//! Where the tiles of a sparse document live in pages of texture memory.

use crate::document::LayerId;
use crate::keyed_map::Key;
use crate::raster::TileCoord;
use vstd::prelude::*;

verus! {

/// One tile of one layer.
#[derive(Clone, Copy, Debug, PartialEq, Eq, Hash, Structural)]
pub struct LayerTileKey {
    pub layer: LayerId,
    pub tile: TileCoord,
}

impl LayerTileKey {
    pub fn new(layer: LayerId, tile: TileCoord) -> (key: LayerTileKey)
        ensures
            key == (LayerTileKey { layer, tile }),
    {
        LayerTileKey { layer, tile }
    }
}

impl Key for LayerTileKey {
    fn same(self, other: Self) -> (equal: bool) {
        self.layer.0 == other.layer.0 && self.tile.x == other.tile.x && self.tile.y == other.tile.y
    }
}

#[derive(Clone, Copy, Debug, PartialEq, Eq, PartialOrd, Ord, Hash, Structural)]
pub struct AtlasPageId(pub u32);

impl AtlasPageId {
    pub fn from_raw(raw: u32) -> (page: AtlasPageId)
        ensures
            page == AtlasPageId(raw),
    {
        AtlasPageId(raw)
    }

    pub fn get(self) -> (raw: u32)
        ensures
            raw == self.0,
    {
        self.0
    }
}

impl Key for AtlasPageId {
    fn same(self, other: Self) -> (equal: bool) {
        self.0 == other.0
    }
}

/// One place for a tile: a page, a number in the page, and the pixel at which
/// the place begins.
#[derive(Clone, Copy, Debug, PartialEq, Eq, Hash, Structural)]
pub struct AtlasSlot {
    pub page: AtlasPageId,
    pub slot_in_page: u32,
    pub origin_x: u32,
    pub origin_y: u32,
}

impl AtlasSlot {
    pub fn page(self) -> (page: AtlasPageId)
        ensures
            page == self.page,
    {
        self.page
    }

    pub fn slot_in_page(self) -> (slot: u32)
        ensures
            slot == self.slot_in_page,
    {
        self.slot_in_page
    }

    pub fn origin(self) -> (origin: [u32; 2])
        ensures
            origin[0] == self.origin_x,
            origin[1] == self.origin_y,
    {
        [self.origin_x, self.origin_y]
    }
}

impl Key for AtlasSlot {
    fn same(self, other: Self) -> (equal: bool) {
        self.page.0 == other.page.0 && self.slot_in_page == other.slot_in_page && self.origin_x
            == other.origin_x && self.origin_y == other.origin_y
    }
}

#[derive(Clone, Copy, Debug, PartialEq, Eq, Structural)]
pub enum AtlasError {
    InvalidLayout { page_size: u32, tile_size: u32, max_pages: u32 },
    CapacityOverflow,
    CapacityExhausted { capacity: u32 },
    NotResident(LayerTileKey),
}

/// How pages of texture memory are divided into places for tiles.
#[derive(Clone, Copy, Debug, PartialEq, Eq, Structural)]
pub struct AtlasLayout {
    pub(crate) page_size: u32,
    pub(crate) tile_size: u32,
    pub(crate) max_pages: u32,
}

pub struct AtlasGeometry {
    pub page_size: int,
    pub tile_size: int,
    pub max_pages: int,
}

impl AtlasGeometry {
    pub open spec fn valid(self) -> bool {
        &&& 0 < self.tile_size <= self.page_size <= u32::MAX
        &&& 0 < self.max_pages <= u32::MAX
        &&& self.page_size % self.tile_size == 0
        &&& self.capacity() <= u32::MAX
    }

    /// Places along one side of a page.
    pub open spec fn columns(self) -> int {
        self.page_size / self.tile_size
    }

    pub open spec fn slots_per_page(self) -> int {
        self.columns() * self.columns()
    }

    pub open spec fn capacity(self) -> int {
        self.slots_per_page() * self.max_pages
    }

    /// The place with the given number, counted page by page and row by row.
    pub open spec fn slot(self, index: int) -> AtlasSlot {
        let in_page = index % self.slots_per_page();
        AtlasSlot {
            page: AtlasPageId((index / self.slots_per_page()) as u32),
            slot_in_page: in_page as u32,
            origin_x: ((in_page % self.columns()) * self.tile_size) as u32,
            origin_y: ((in_page / self.columns()) * self.tile_size) as u32,
        }
    }
}

impl View for AtlasLayout {
    type V = AtlasGeometry;

    open(crate) spec fn view(&self) -> AtlasGeometry {
        AtlasGeometry {
            page_size: self.page_size as int,
            tile_size: self.tile_size as int,
            max_pages: self.max_pages as int,
        }
    }
}

impl AtlasLayout {
    #[verifier::type_invariant]
    pub(crate) open(crate) spec fn inv(self) -> bool {
        self@.valid()
    }

    pub fn new(page_size: u32, tile_size: u32, max_pages: u32) -> (layout: Result<
        AtlasLayout,
        AtlasError,
    >)
        ensures
            ({
                let geometry = AtlasGeometry {
                    page_size: page_size as int,
                    tile_size: tile_size as int,
                    max_pages: max_pages as int,
                };
                match layout {
                    Ok(layout) => layout@ == geometry && geometry.valid(),
                    Err(AtlasError::InvalidLayout { page_size: p, tile_size: t, max_pages: m }) => {
                        &&& p == page_size && t == tile_size && m == max_pages
                        &&& page_size == 0 || tile_size == 0 || max_pages == 0 || page_size
                            % tile_size != 0
                    },
                    Err(AtlasError::CapacityOverflow) => {
                        &&& page_size > 0 && tile_size > 0 && max_pages > 0 && page_size % tile_size
                            == 0
                        &&& geometry.capacity() > u32::MAX
                    },
                    Err(_) => false,
                }
            }),
    {
        if page_size == 0 || tile_size == 0 || max_pages == 0 || page_size % tile_size != 0 {
            return Err(AtlasError::InvalidLayout { page_size, tile_size, max_pages });
        }
        let columns: u32 = page_size / tile_size;
        proof {
            lemma_columns(page_size as int, tile_size as int);
        }
        let slots: u64 = columns as u64 * columns as u64;
        if slots > u32::MAX as u64 {
            proof {
                assert(slots * max_pages as int >= slots) by (nonlinear_arith)
                    requires
                        max_pages >= 1,
                        slots >= 0,
                ;
            }
            return Err(AtlasError::CapacityOverflow);
        }
        assert(slots * max_pages <= u32::MAX * u32::MAX) by (nonlinear_arith)
            requires
                0 <= slots <= u32::MAX,
                0 <= max_pages <= u32::MAX,
        ;
        let capacity: u64 = slots * max_pages as u64;
        if capacity > u32::MAX as u64 {
            return Err(AtlasError::CapacityOverflow);
        }
        Ok(AtlasLayout { page_size, tile_size, max_pages })
    }

    /// The layout of a document's color pages.
    pub fn document_default() -> (layout: AtlasLayout)
        ensures
            layout@ == (AtlasGeometry { page_size: 1024, tile_size: 128, max_pages: 256 }),
    {
        proof {
            let geometry = AtlasGeometry { page_size: 1024, tile_size: 128, max_pages: 256 };
            let columns = geometry.columns();
            let slots = geometry.slots_per_page();
            assert(columns == 8);
            assert(columns * columns == 64) by (nonlinear_arith)
                requires
                    columns == 8,
            ;
            assert(slots * 256 == 16384) by (nonlinear_arith)
                requires
                    slots == 64,
            ;
        }
        AtlasLayout { page_size: 1024, tile_size: 128, max_pages: 256 }
    }

    pub fn page_size(self) -> (value: u32)
        ensures
            value == self@.page_size,
            self@.valid(),
    {
        proof {
            use_type_invariant(&self);
        }
        self.page_size
    }

    pub fn tile_size(self) -> (value: u32)
        ensures
            value == self@.tile_size,
            self@.valid(),
    {
        proof {
            use_type_invariant(&self);
        }
        self.tile_size
    }

    pub fn max_pages(self) -> (value: u32)
        ensures
            value == self@.max_pages,
            self@.valid(),
    {
        proof {
            use_type_invariant(&self);
        }
        self.max_pages
    }

    pub fn same(self, other: AtlasLayout) -> (equal: bool)
        ensures
            equal == (self == other),
            equal == (self@ == other@),
    {
        self.page_size == other.page_size && self.tile_size == other.tile_size && self.max_pages
            == other.max_pages
    }

    pub fn slots_per_page(self) -> (count: u32)
        ensures
            count == self@.slots_per_page(),
            count > 0,
            self@.valid(),
    {
        proof {
            use_type_invariant(&self);
            lemma_columns(self.page_size as int, self.tile_size as int);
            lemma_capacity_bounds(self@);
        }
        let columns: u32 = self.page_size / self.tile_size;
        columns * columns
    }

    pub fn total_capacity(self) -> (count: u32)
        ensures
            count == self@.capacity(),
            self@.valid(),
    {
        proof {
            use_type_invariant(&self);
        }
        self.slots_per_page() * self.max_pages
    }

    /// The place with the given number.
    pub fn slot(self, index: u32) -> (slot: AtlasSlot)
        requires
            index < self@.capacity(),
        ensures
            slot == self@.slot(index as int),
    {
        proof {
            use_type_invariant(&self);
            lemma_columns(self.page_size as int, self.tile_size as int);
            lemma_capacity_bounds(self@);
            lemma_slot_origin(self@, index as int);
        }
        let columns: u32 = self.page_size / self.tile_size;
        let per_page: u32 = self.slots_per_page();
        let in_page: u32 = index % per_page;
        AtlasSlot {
            page: AtlasPageId(index / per_page),
            slot_in_page: in_page,
            origin_x: (in_page % columns) * self.tile_size,
            origin_y: (in_page / columns) * self.tile_size,
        }
    }
}

proof fn lemma_columns(page_size: int, tile_size: int)
    requires
        0 < tile_size <= u32::MAX,
        0 < page_size <= u32::MAX,
        page_size % tile_size == 0,
    ensures
        tile_size <= page_size,
        0 < page_size / tile_size <= page_size,
        (page_size / tile_size) * tile_size == page_size,
        (page_size / tile_size) * (page_size / tile_size) <= u32::MAX * u32::MAX,
        (page_size / tile_size) * (page_size / tile_size) > 0,
{
    vstd::arithmetic::div_mod::lemma_fundamental_div_mod(page_size, tile_size);
    let columns = page_size / tile_size;
    assert(tile_size * columns == columns * tile_size) by (nonlinear_arith);
    assert(columns > 0) by (nonlinear_arith)
        requires
            columns * tile_size == page_size,
            page_size > 0,
            tile_size > 0,
    ;
    assert(columns <= page_size && tile_size <= page_size) by (nonlinear_arith)
        requires
            columns * tile_size == page_size,
            columns > 0,
            tile_size > 0,
    ;
    assert(0 < columns * columns <= u32::MAX * u32::MAX) by (nonlinear_arith)
        requires
            0 < columns <= u32::MAX,
    ;
}

pub(crate) proof fn lemma_capacity_bounds(geometry: AtlasGeometry)
    requires
        geometry.valid(),
    ensures
        0 < geometry.columns(),
        0 < geometry.slots_per_page() <= geometry.capacity(),
{
    lemma_columns(geometry.page_size, geometry.tile_size);
    let slots = geometry.slots_per_page();
    let pages = geometry.max_pages;
    assert(slots <= slots * pages) by (nonlinear_arith)
        requires
            slots > 0,
            pages >= 1,
    ;
}

/// Every place lies inside its page, and its page is one of the layout's.
pub proof fn lemma_slot_origin(geometry: AtlasGeometry, index: int)
    requires
        geometry.valid(),
        0 <= index < geometry.capacity(),
    ensures
        ({
            let in_page = index % geometry.slots_per_page();
            let columns = geometry.columns();
            &&& 0 <= in_page < geometry.slots_per_page()
            &&& 0 <= index / geometry.slots_per_page() < geometry.max_pages
            &&& 0 <= (in_page % columns) * geometry.tile_size <= geometry.page_size
                - geometry.tile_size
            &&& 0 <= (in_page / columns) * geometry.tile_size <= geometry.page_size
                - geometry.tile_size
        }),
        geometry.slot(index).origin_x + geometry.tile_size <= geometry.page_size,
        geometry.slot(index).origin_y + geometry.tile_size <= geometry.page_size,
        geometry.slot(index).page.0 < geometry.max_pages,
{
    lemma_capacity_bounds(geometry);
    lemma_columns(geometry.page_size, geometry.tile_size);
    let per_page = geometry.slots_per_page();
    let columns = geometry.columns();
    let tile = geometry.tile_size;
    vstd::arithmetic::div_mod::lemma_fundamental_div_mod(index, per_page);
    let in_page = index % per_page;
    assert(0 <= index / per_page < geometry.max_pages) by (nonlinear_arith)
        requires
            index == per_page * (index / per_page) + in_page,
            0 <= in_page < per_page,
            0 <= index < per_page * geometry.max_pages,
            per_page > 0,
    ;
    vstd::arithmetic::div_mod::lemma_fundamental_div_mod(in_page, columns);
    let row = in_page / columns;
    let column = in_page % columns;
    assert(0 <= row < columns) by (nonlinear_arith)
        requires
            in_page == columns * row + column,
            0 <= column < columns,
            0 <= in_page < columns * columns,
            columns > 0,
    ;
    assert(0 <= row * tile <= columns * tile - tile) by (nonlinear_arith)
        requires
            0 <= row < columns,
            tile > 0,
    ;
    assert(0 <= column * tile <= columns * tile - tile) by (nonlinear_arith)
        requires
            0 <= column < columns,
            tile > 0,
    ;
}

/// Two tiles never share a place: different numbers name different slots.
pub proof fn law_different_places_do_not_share_a_slot(geometry: AtlasGeometry, first: int, second: int)
    requires
        geometry.valid(),
        0 <= first < geometry.capacity(),
        0 <= second < geometry.capacity(),
        first != second,
    ensures
        geometry.slot(first) != geometry.slot(second),
{
    lemma_slot_origin(geometry, first);
    lemma_slot_origin(geometry, second);
    lemma_capacity_bounds(geometry);
    vstd::arithmetic::div_mod::lemma_fundamental_div_mod(first, geometry.slots_per_page());
    vstd::arithmetic::div_mod::lemma_fundamental_div_mod(second, geometry.slots_per_page());
}

/// The answer to a request for a place.
#[derive(Clone, Copy, Debug, PartialEq, Eq, Structural)]
pub struct AtlasAllocation {
    pub key: LayerTileKey,
    pub slot: AtlasSlot,
    pub newly_allocated: bool,
}

pub open spec fn slot_of_key(slots: Seq<Option<LayerTileKey>>, key: LayerTileKey) -> Option<int> {
    if exists|i: int| 0 <= i < slots.len() && #[trigger] slots[i] == Some(key) {
        Some(choose|i: int| 0 <= i < slots.len() && #[trigger] slots[i] == Some(key))
    } else {
        None
    }
}

/// The first place that holds nothing, or the number of places in use.
pub open spec fn first_free(slots: Seq<Option<LayerTileKey>>) -> int
    decreases slots.len(),
{
    if slots.len() == 0 {
        0
    } else if slots[0] is None {
        0
    } else {
        1 + first_free(slots.subrange(1, slots.len() as int))
    }
}

proof fn lemma_first_free(slots: Seq<Option<LayerTileKey>>, index: int)
    requires
        0 <= index <= slots.len(),
        forall|i: int| 0 <= i < index ==> #[trigger] slots[i] is Some,
        index < slots.len() ==> slots[index] is None,
    ensures
        first_free(slots) == index,
    decreases slots.len(),
{
    if slots.len() > 0 && index > 0 {
        assert(slots[0] is Some);
        let rest = slots.subrange(1, slots.len() as int);
        assert forall|i: int| 0 <= i < index - 1 implies #[trigger] rest[i] is Some by {
            assert(rest[i] == slots[i + 1]);
        }
        lemma_first_free(rest, index - 1);
    }
}

/// A page more, with nothing in it.
pub open spec fn with_page(
    slots: Seq<Option<LayerTileKey>>,
    per_page: int,
) -> Seq<Option<LayerTileKey>> {
    slots + Seq::new(per_page as nat, |i: int| None::<LayerTileKey>)
}

/// The places after one key has been given the first free one.
pub open spec fn with_key(
    slots: Seq<Option<LayerTileKey>>,
    per_page: int,
    key: LayerTileKey,
) -> Seq<Option<LayerTileKey>> {
    let index = first_free(slots);
    if index < slots.len() {
        slots.update(index, Some(key))
    } else {
        with_page(slots, per_page).update(index, Some(key))
    }
}

/// What a request for `key` does: the answer with the places after it, or
/// nothing when every place is taken.
pub open spec fn allocate_one(
    geometry: AtlasGeometry,
    slots: Seq<Option<LayerTileKey>>,
    key: LayerTileKey,
) -> Option<(Seq<Option<LayerTileKey>>, AtlasAllocation)> {
    match slot_of_key(slots, key) {
        Some(index) => Some(
            (slots, AtlasAllocation { key, slot: geometry.slot(index), newly_allocated: false }),
        ),
        None => if first_free(slots) < geometry.capacity() {
            Some(
                (
                    with_key(slots, geometry.slots_per_page(), key),
                    AtlasAllocation {
                        key,
                        slot: geometry.slot(first_free(slots)),
                        newly_allocated: true,
                    },
                ),
            )
        } else {
            None
        },
    }
}

/// What requests for all of `keys` do, one after the other.
pub open spec fn allocate_all(
    geometry: AtlasGeometry,
    slots: Seq<Option<LayerTileKey>>,
    keys: Seq<LayerTileKey>,
) -> Option<(Seq<Option<LayerTileKey>>, Seq<AtlasAllocation>)>
    decreases keys.len(),
{
    if keys.len() == 0 {
        Some((slots, Seq::empty()))
    } else {
        match allocate_all(geometry, slots, keys.drop_last()) {
            Some((after, allocations)) => match allocate_one(geometry, after, keys.last()) {
                Some((last, allocation)) => Some((last, allocations.push(allocation))),
                None => None,
            },
            None => None,
        }
    }
}

/// Something to do at the place of a resident tile.
#[derive(Clone, Copy, Debug, PartialEq, Eq)]
pub struct ResidentWork<T> {
    pub key: LayerTileKey,
    pub slot: AtlasSlot,
    pub payload: T,
}

/// What there is to do on one page.
#[derive(Clone, Debug, PartialEq)]
pub struct AtlasPageBatch<T> {
    pub page: AtlasPageId,
    pub work: Vec<ResidentWork<T>>,
}

/// The work on one page, in the order in which it was given.
pub open spec fn work_on_page<T>(work: Seq<ResidentWork<T>>, page: AtlasPageId) -> Seq<
    ResidentWork<T>,
>
    decreases work.len(),
{
    if work.len() == 0 {
        Seq::empty()
    } else {
        let earlier = work_on_page(work.drop_last(), page);
        if work.last().slot.page == page {
            earlier.push(work.last())
        } else {
            earlier
        }
    }
}

/// The work page by page: each page that has work once, in order.
pub open spec fn page_batches<T>(
    work: Seq<ResidentWork<T>>,
    pages: Seq<AtlasPageBatch<T>>,
) -> bool {
    &&& forall|i: int, j: int|
        #![trigger pages[i], pages[j]]
        0 <= i < j < pages.len() ==> pages[i].page.0 < pages[j].page.0
    &&& forall|i: int|
        #![trigger pages[i]]
        0 <= i < pages.len() ==> pages[i].work@ == work_on_page(work, pages[i].page)
            && pages[i].work@.len() > 0
    &&& forall|k: int|
        #![trigger work[k]]
        0 <= k < work.len() ==> exists|i: int|
            0 <= i < pages.len() && (#[trigger] pages[i]).page == work[k].slot.page
}

/// Puts work together page by page.
pub fn batch_by_page<T: Copy>(work: &Vec<ResidentWork<T>>) -> (pages: Vec<AtlasPageBatch<T>>)
    ensures
        page_batches(work@, pages@),
{
    let mut pages: Vec<AtlasPageBatch<T>> = Vec::new();
    let mut k: usize = 0;
    assert(work@.subrange(0, 0) =~= Seq::<ResidentWork<T>>::empty());
    while k < work.len()
        invariant
            k <= work@.len(),
            page_batches(work@.subrange(0, k as int), pages@),
        decreases work@.len() - k,
    {
        let ghost done = work@.subrange(0, k as int);
        let ghost next = work@.subrange(0, k as int + 1);
        let ghost before = pages@;
        let item = work[k];
        proof {
            assert(next.drop_last() =~= done);
            assert(next.last() == item);
        }
        let mut at: usize = 0;
        while at < pages.len() && pages[at].page.0 < item.slot.page.0
            invariant
                at <= pages@.len(),
                forall|i: int|
                    0 <= i < at ==> (#[trigger] pages@[i]).page.0 < item.slot.page.0,
            decreases pages@.len() - at,
        {
            at += 1;
        }
        if at < pages.len() && pages[at].page.0 == item.slot.page.0 {
            pages[at].work.push(item);
            proof {
                assert forall|i: int|
                    #![trigger pages@[i]]
                    0 <= i < pages@.len() implies pages@[i].work@ == work_on_page(
                    next,
                    pages@[i].page,
                ) && pages@[i].work@.len() > 0 by {
                    if i != at {
                        assert(pages@[i] == before[i]);
                        if i < at {
                            assert(before[i].page.0 < before[at as int].page.0);
                        } else {
                            assert(before[at as int].page.0 < before[i].page.0);
                        }
                    }
                    assert(before[i].page == pages@[i].page);
                }
                assert forall|i: int, j: int|
                    #![trigger pages@[i], pages@[j]]
                    0 <= i < j < pages@.len() implies pages@[i].page.0 < pages@[j].page.0 by {
                    assert(before[i].page.0 < before[j].page.0);
                    assert(before[i].page == pages@[i].page && before[j].page == pages@[j].page);
                }
                assert forall|m: int|
                    #![trigger next[m]]
                    0 <= m < next.len() implies exists|i: int|
                    0 <= i < pages@.len() && (#[trigger] pages@[i]).page == next[m].slot.page by {
                    if m < k {
                        assert(done[m] == next[m]);
                        let i = choose|i: int|
                            0 <= i < before.len() && (#[trigger] before[i]).page
                                == done[m].slot.page;
                        assert(pages@[i].page == next[m].slot.page);
                    } else {
                        assert(pages@[at as int].page == next[m].slot.page);
                    }
                }
            }
        } else {
            let mut fresh: Vec<ResidentWork<T>> = Vec::new();
            fresh.push(item);
            pages.insert(at, AtlasPageBatch { page: item.slot.page, work: fresh });
            proof {
                assert forall|m: int| 0 <= m < done.len() implies (#[trigger] done[m]).slot.page
                    != item.slot.page by {
                    let i = choose|i: int|
                        0 <= i < before.len() && (#[trigger] before[i]).page == done[m].slot.page;
                    if i > at {
                        assert(before[at as int].page.0 < before[i].page.0);
                    }
                }
                lemma_no_work(done, item.slot.page);
                assert forall|i: int|
                    #![trigger pages@[i]]
                    0 <= i < pages@.len() implies pages@[i].work@ == work_on_page(
                    next,
                    pages@[i].page,
                ) && pages@[i].work@.len() > 0 by {
                    if i == at {
                        assert(pages@[i].work@ =~= work_on_page(next, item.slot.page));
                    } else if i < at {
                        assert(pages@[i] == before[i]);
                    } else {
                        assert(pages@[i] == before[i - 1]);
                        if i - 1 > at {
                            assert(before[at as int].page.0 < before[i - 1].page.0);
                        }
                    }
                }
                assert forall|i: int, j: int|
                    #![trigger pages@[i], pages@[j]]
                    0 <= i < j < pages@.len() implies pages@[i].page.0 < pages@[j].page.0 by {
                    let a = if i < at {
                        i
                    } else {
                        i - 1
                    };
                    let b = if j < at {
                        j
                    } else {
                        j - 1
                    };
                    if i != at && j != at {
                        assert(before[a].page.0 < before[b].page.0);
                    } else if j == at {
                        assert(pages@[i] == before[i]);
                    } else {
                        assert(pages@[j] == before[b]);
                        if b > at {
                            assert(before[at as int].page.0 < before[b].page.0);
                        }
                    }
                }
                assert forall|m: int|
                    #![trigger next[m]]
                    0 <= m < next.len() implies exists|i: int|
                    0 <= i < pages@.len() && (#[trigger] pages@[i]).page == next[m].slot.page by {
                    if m < k {
                        assert(done[m] == next[m]);
                        let i = choose|i: int|
                            0 <= i < before.len() && (#[trigger] before[i]).page
                                == done[m].slot.page;
                        let j = if i < at {
                            i
                        } else {
                            i + 1
                        };
                        assert(pages@[j] == before[i]);
                        assert(pages@[j].page == next[m].slot.page);
                    } else {
                        assert(pages@[at as int].page == next[m].slot.page);
                    }
                }
            }
        }
        k += 1;
    }
    assert(work@.subrange(0, k as int) =~= work@);
    pages
}

proof fn lemma_no_work<T>(work: Seq<ResidentWork<T>>, page: AtlasPageId)
    requires
        forall|k: int| 0 <= k < work.len() ==> (#[trigger] work[k]).slot.page != page,
    ensures
        work_on_page(work, page).len() == 0,
    decreases work.len(),
{
    if work.len() > 0 {
        let rest = work.drop_last();
        assert forall|k: int| 0 <= k < rest.len() implies (#[trigger] rest[k]).slot.page
            != page by {
            assert(rest[k] == work[k]);
        }
        lemma_no_work(rest, page);
        assert(work[work.len() - 1].slot.page != page);
    }
}

/// Gives tiles places in pages of texture memory, first come first served.
#[derive(Debug)]
pub struct SparseAtlasPlanner {
    pub(crate) layout: AtlasLayout,
    pub(crate) slots: Vec<Option<LayerTileKey>>,
}

impl SparseAtlasPlanner {
    /// What each place holds, page by page.
    pub open(crate) spec fn places(self) -> Seq<Option<LayerTileKey>> {
        self.slots@
    }

    pub open(crate) spec fn geometry(self) -> AtlasGeometry {
        self.layout@
    }

    /// Whole pages only, no more than the layout has, and no tile in two places.
    pub open(crate) spec fn wf(self) -> bool {
        &&& self.layout@.valid()
        &&& self.slots@.len() as int % self.layout@.slots_per_page() == 0
        &&& self.slots@.len() <= self.layout@.capacity()
        &&& forall|i: int, j: int|
            #![trigger self.slots@[i], self.slots@[j]]
            0 <= i < j < self.slots@.len() && self.slots@[i] is Some ==> self.slots@[i]
                != self.slots@[j]
    }

    pub fn new(layout: AtlasLayout) -> (atlas: SparseAtlasPlanner)
        ensures
            atlas.wf(),
            atlas.geometry() == layout@,
            atlas.places() == Seq::<Option<LayerTileKey>>::empty(),
    {
        proof {
            use_type_invariant(&layout);
            lemma_capacity_bounds(layout@);
            vstd::arithmetic::div_mod::lemma_small_mod(0, layout@.slots_per_page() as nat);
        }
        SparseAtlasPlanner { layout, slots: Vec::new() }
    }

    pub fn layout(&self) -> (layout: AtlasLayout)
        ensures
            layout@ == self.geometry(),
    {
        self.layout
    }

    fn find(&self, key: LayerTileKey) -> (found: Option<usize>)
        requires
            self.wf(),
        ensures
            match found {
                Some(i) => i < self.places().len() && slot_of_key(self.places(), key) == Some(
                    i as int,
                ) && self.places()[i as int] == Some(key),
                None => slot_of_key(self.places(), key) is None,
            },
    {
        let mut i: usize = 0;
        while i < self.slots.len()
            invariant
                self.wf(),
                i <= self.slots@.len(),
                forall|j: int| 0 <= j < i ==> #[trigger] self.slots@[j] != Some(key),
            decreases self.slots@.len() - i,
        {
            match self.slots[i] {
                Some(occupant) => {
                    if occupant.same(key) {
                        proof {
                            let found = choose|j: int|
                                0 <= j < self.slots@.len() && #[trigger] self.slots@[j] == Some(
                                    key,
                                );
                            assert(self.slots@[i as int] == Some(key));
                            assert(found == i) by {
                                if found < i {
                                    assert(self.slots@[found] != self.slots@[i as int]);
                                } else if i < found {
                                    assert(self.slots@[i as int] != self.slots@[found]);
                                }
                            }
                        }
                        return Some(i);
                    }
                },
                None => {},
            }
            i += 1;
        }
        None
    }

    /// The place of a resident tile.
    pub fn slot(&self, key: LayerTileKey) -> (slot: Option<AtlasSlot>)
        requires
            self.wf(),
        ensures
            slot == (match slot_of_key(self.places(), key) {
                Some(index) => Some(self.geometry().slot(index)),
                None => None,
            }),
    {
        match self.find(key) {
            Some(index) => Some(self.layout.slot(index as u32)),
            None => None,
        }
    }

    /// Gives `key` a place unless it has one.
    pub fn allocate(&mut self, key: LayerTileKey) -> (allocation: Result<
        AtlasAllocation,
        AtlasError,
    >)
        requires
            old(self).wf(),
        ensures
            final(self).wf(),
            final(self).geometry() == old(self).geometry(),
            match allocation {
                Ok(allocation) => allocate_one(old(self).geometry(), old(self).places(), key)
                    == Some((final(self).places(), allocation)),
                Err(error) => {
                    &&& allocate_one(old(self).geometry(), old(self).places(), key) is None
                    &&& error == (AtlasError::CapacityExhausted {
                        capacity: old(self).geometry().capacity() as u32,
                    })
                    &&& *final(self) == *old(self)
                },
            },
    {
        if let Some(index) = self.find(key) {
            return Ok(
                AtlasAllocation { key, slot: self.layout.slot(index as u32), newly_allocated: false },
            );
        }
        let ghost before = self.slots@;
        let capacity: u32 = self.layout.total_capacity();
        let per_page: u32 = self.layout.slots_per_page();
        let mut index: usize = 0;
        while index < self.slots.len() && self.slots[index].is_some()
            invariant
                index <= self.slots@.len(),
                forall|i: int| 0 <= i < index ==> #[trigger] self.slots@[i] is Some,
            decreases self.slots@.len() - index,
        {
            index += 1;
        }
        proof {
            lemma_first_free(before, index as int);
        }
        if index == self.slots.len() {
            if self.slots.len() as u64 >= capacity as u64 {
                return Err(AtlasError::CapacityExhausted { capacity });
            }
            proof {
                lemma_room_for_page(self.layout@, before.len() as int);
            }
            let mut added: u32 = 0;
            while added < per_page
                invariant
                    added <= per_page,
                    self.layout == old(self).layout,
                    self.slots@ == before + Seq::new(added as nat, |i: int| None::<LayerTileKey>),
                decreases per_page - added,
            {
                self.slots.push(None);
                added += 1;
                assert(self.slots@ =~= before + Seq::new(
                    added as nat,
                    |i: int| None::<LayerTileKey>,
                ));
            }
            proof {
                assert(self.slots@ == with_page(before, per_page as int));
                vstd::arithmetic::div_mod::lemma_mod_add_multiples_vanish(
                    before.len() as int,
                    per_page as int,
                );
            }
        }
        let ghost grown = self.slots@;
        self.slots.set(index, Some(key));
        proof {
            assert(self.slots@ == with_key(before, per_page as int, key));
            assert forall|i: int, j: int|
                #![trigger self.slots@[i], self.slots@[j]]
                0 <= i < j < self.slots@.len() && self.slots@[i] is Some implies self.slots@[i]
                != self.slots@[j] by {
                if i != index && j != index {
                    assert(grown[i] == self.slots@[i] && grown[j] == self.slots@[j]);
                    if i < before.len() && j < before.len() {
                        assert(before[i] != before[j]);
                    }
                } else if i == index {
                    assert(grown[j] == self.slots@[j]);
                    if j < before.len() {
                        assert(before[j] != Some(key));
                    }
                } else {
                    assert(grown[i] == self.slots@[i]);
                    if i < before.len() {
                        assert(before[i] != Some(key));
                    }
                }
            }
        }
        Ok(AtlasAllocation { key, slot: self.layout.slot(index as u32), newly_allocated: true })
    }

    /// Gives every key a place, or none of them a new one.
    pub fn allocate_batch(&mut self, keys: &Vec<LayerTileKey>) -> (allocations: Result<
        Vec<AtlasAllocation>,
        AtlasError,
    >)
        requires
            old(self).wf(),
        ensures
            final(self).wf(),
            final(self).geometry() == old(self).geometry(),
            match allocations {
                Ok(allocations) => allocate_all(
                    old(self).geometry(),
                    old(self).places(),
                    keys@,
                ) == Some((final(self).places(), allocations@)),
                Err(error) => {
                    &&& allocate_all(old(self).geometry(), old(self).places(), keys@) is None
                    &&& error == (AtlasError::CapacityExhausted {
                        capacity: old(self).geometry().capacity() as u32,
                    })
                    &&& final(self).places() == old(self).places()
                },
            },
    {
        let ghost geometry = self.layout@;
        let ghost before = self.slots@;
        let backup = self.copy_slots();
        let mut allocations: Vec<AtlasAllocation> = Vec::new();
        let mut i: usize = 0;
        assert(keys@.subrange(0, 0) =~= Seq::<LayerTileKey>::empty());
        while i < keys.len()
            invariant
                self.wf(),
                old(self).wf(),
                self.layout@ == geometry,
                self.layout == old(self).layout,
                old(self).layout@ == geometry,
                old(self).slots@ == before,
                backup@ == before,
                i <= keys@.len(),
                allocate_all(geometry, before, keys@.subrange(0, i as int)) == Some(
                    (self.slots@, allocations@),
                ),
            decreases keys@.len() - i,
        {
            let ghost prefix = keys@.subrange(0, i as int + 1);
            proof {
                assert(prefix.drop_last() =~= keys@.subrange(0, i as int));
                assert(prefix.last() == keys@[i as int]);
            }
            match self.allocate(keys[i]) {
                Ok(allocation) => {
                    allocations.push(allocation);
                },
                Err(error) => {
                    proof {
                        lemma_prefix_fails(geometry, before, keys@, i as int + 1);
                    }
                    self.slots = backup;
                    return Err(error);
                },
            }
            i += 1;
        }
        assert(keys@.subrange(0, i as int) =~= keys@);
        Ok(allocations)
    }

    fn copy_slots(&self) -> (copy: Vec<Option<LayerTileKey>>)
        ensures
            copy@ == self.places(),
    {
        let mut copy: Vec<Option<LayerTileKey>> = Vec::new();
        let mut i: usize = 0;
        while i < self.slots.len()
            invariant
                i <= self.slots@.len(),
                copy@ == self.slots@.subrange(0, i as int),
            decreases self.slots@.len() - i,
        {
            copy.push(self.slots[i]);
            i += 1;
            assert(copy@ =~= self.slots@.subrange(0, i as int));
        }
        assert(copy@ =~= self.slots@);
        copy
    }

    /// Takes the place of `key` back.
    pub fn release(&mut self, key: LayerTileKey) -> (released: Result<AtlasSlot, AtlasError>)
        requires
            old(self).wf(),
        ensures
            final(self).wf(),
            final(self).geometry() == old(self).geometry(),
            match released {
                Ok(slot) => {
                    &&& slot_of_key(old(self).places(), key) matches Some(index)
                    &&& slot == old(self).geometry().slot(index)
                    &&& final(self).places() == old(self).places().update(index, None)
                },
                Err(error) => {
                    &&& error == AtlasError::NotResident(key)
                    &&& slot_of_key(old(self).places(), key) is None
                    &&& *final(self) == *old(self)
                },
            },
    {
        match self.find(key) {
            Some(index) => {
                let ghost before = self.slots@;
                self.slots.set(index, None);
                proof {
                    assert forall|i: int, j: int|
                        #![trigger self.slots@[i], self.slots@[j]]
                        0 <= i < j < self.slots@.len() && self.slots@[i] is Some implies
                        self.slots@[i] != self.slots@[j] by {
                        if i != index && j != index {
                            assert(before[i] != before[j]);
                        }
                    }
                }
                Ok(self.layout.slot(index as u32))
            },
            None => Err(AtlasError::NotResident(key)),
        }
    }

    /// How many tiles have a place.
    pub fn resident_tile_count(&self) -> (count: usize)
        ensures
            count == occupied(self.places()),
    {
        let mut count: usize = 0;
        let mut i: usize = 0;
        assert(self.slots@.subrange(0, 0) =~= Seq::<Option<LayerTileKey>>::empty());
        while i < self.slots.len()
            invariant
                i <= self.slots@.len(),
                count <= i,
                count == occupied(self.slots@.subrange(0, i as int)),
            decreases self.slots@.len() - i,
        {
            let ghost prefix = self.slots@.subrange(0, i as int + 1);
            assert(prefix.drop_last() =~= self.slots@.subrange(0, i as int));
            assert(prefix.last() == self.slots@[i as int]);
            if self.slots[i].is_some() {
                count += 1;
            }
            i += 1;
        }
        assert(self.slots@.subrange(0, i as int) =~= self.slots@);
        count
    }

    /// How many pages have been opened.
    pub fn retained_page_count(&self) -> (count: usize)
        requires
            self.wf(),
        ensures
            count * self.geometry().slots_per_page() == self.places().len(),
    {
        let per_page: u32 = self.layout.slots_per_page();
        proof {
            vstd::arithmetic::div_mod::lemma_fundamental_div_mod(
                self.slots@.len() as int,
                per_page as int,
            );
            let pages = self.slots@.len() as int / per_page as int;
            assert(per_page as int * pages == pages * per_page as int) by (nonlinear_arith);
        }
        self.slots.len() / per_page as usize
    }
}

pub open spec fn occupied(slots: Seq<Option<LayerTileKey>>) -> nat
    decreases slots.len(),
{
    if slots.len() == 0 {
        0
    } else {
        occupied(slots.drop_last()) + if slots.last() is Some {
            1nat
        } else {
            0nat
        }
    }
}

pub(crate) proof fn lemma_first_free_is_free(slots: Seq<Option<LayerTileKey>>)
    ensures
        0 <= first_free(slots) <= slots.len(),
        first_free(slots) < slots.len() ==> slots[first_free(slots)] is None,
    decreases slots.len(),
{
    if slots.len() > 0 && slots[0] is Some {
        let rest = slots.subrange(1, slots.len() as int);
        lemma_first_free_is_free(rest);
        if first_free(rest) < rest.len() {
            assert(rest[first_free(rest)] == slots[1 + first_free(rest)]);
        }
    }
}

/// A tile keeps its place when another gets one.
proof fn lemma_allocation_keeps(
    geometry: AtlasGeometry,
    slots: Seq<Option<LayerTileKey>>,
    key: LayerTileKey,
    other: LayerTileKey,
)
    requires
        geometry.valid(),
        allocate_one(geometry, slots, key) is Some,
        slot_of_key(slots, other) is Some || other == key,
    ensures
        slot_of_key((allocate_one(geometry, slots, key)->0).0, other) is Some,
{
    let after = (allocate_one(geometry, slots, key)->0).0;
    lemma_first_free_is_free(slots);
    lemma_capacity_bounds(geometry);
    if slot_of_key(slots, other) is Some {
        let i = choose|i: int| 0 <= i < slots.len() && #[trigger] slots[i] == Some(other);
        assert(after[i] == Some(other));
    } else if slot_of_key(slots, key) is None {
        assert(after[first_free(slots)] == Some(key));
    }
}

/// Every tile of a batch has a place afterwards.
pub proof fn lemma_allocated(
    geometry: AtlasGeometry,
    slots: Seq<Option<LayerTileKey>>,
    keys: Seq<LayerTileKey>,
)
    requires
        geometry.valid(),
        allocate_all(geometry, slots, keys) is Some,
    ensures
        forall|i: int|
            0 <= i < keys.len() ==> slot_of_key(
                (allocate_all(geometry, slots, keys)->0).0,
                #[trigger] keys[i],
            ) is Some,
    decreases keys.len(),
{
    if keys.len() > 0 {
        let rest = keys.drop_last();
        lemma_allocated(geometry, slots, rest);
        let middle = (allocate_all(geometry, slots, rest)->0).0;
        assert forall|i: int| 0 <= i < keys.len() implies slot_of_key(
            (allocate_all(geometry, slots, keys)->0).0,
            #[trigger] keys[i],
        ) is Some by {
            if i < rest.len() {
                assert(rest[i] == keys[i]);
            }
            lemma_allocation_keeps(geometry, middle, keys.last(), keys[i]);
        }
    }
}

/// The answers of a batch are given key by key.
pub proof fn lemma_allocation_keys(
    geometry: AtlasGeometry,
    slots: Seq<Option<LayerTileKey>>,
    keys: Seq<LayerTileKey>,
)
    requires
        allocate_all(geometry, slots, keys) is Some,
    ensures
        (allocate_all(geometry, slots, keys)->0).1.len() == keys.len(),
        forall|i: int|
            0 <= i < keys.len() ==> (#[trigger] (allocate_all(geometry, slots, keys)->0).1[i]).key
                == keys[i],
    decreases keys.len(),
{
    if keys.len() > 0 {
        lemma_allocation_keys(geometry, slots, keys.drop_last());
    }
}

pub(crate) proof fn lemma_room_for_page(geometry: AtlasGeometry, len: int)
    requires
        geometry.valid(),
        0 <= len < geometry.capacity(),
        len % geometry.slots_per_page() == 0,
    ensures
        len + geometry.slots_per_page() <= geometry.capacity(),
{
    lemma_capacity_bounds(geometry);
    let per_page = geometry.slots_per_page();
    let pages = geometry.max_pages;
    vstd::arithmetic::div_mod::lemma_fundamental_div_mod(len, per_page);
    let used = len / per_page;
    assert(per_page * used + per_page <= per_page * pages) by (nonlinear_arith)
        requires
            per_page > 0,
            per_page * used < per_page * pages,
    ;
}

proof fn lemma_prefix_fails(
    geometry: AtlasGeometry,
    slots: Seq<Option<LayerTileKey>>,
    keys: Seq<LayerTileKey>,
    end: int,
)
    requires
        0 <= end <= keys.len(),
        allocate_all(geometry, slots, keys.subrange(0, end)) is None,
    ensures
        allocate_all(geometry, slots, keys) is None,
    decreases keys.len() - end,
{
    if end == keys.len() {
        assert(keys.subrange(0, end) =~= keys);
    } else {
        assert(keys.subrange(0, end + 1).drop_last() =~= keys.subrange(0, end));
        lemma_prefix_fails(geometry, slots, keys, end + 1);
    }
}

} // verus!
