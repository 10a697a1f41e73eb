//! What a commit and its undo touch on the device, place by place and pixel by pixel.

use crate::gpu_atlas::{
    page_batches, work_on_page, AtlasLayout, AtlasPageBatch, AtlasPageId, AtlasSlot, LayerTileKey,
    ResidentWork,
};
use crate::gpu_document_target::{
    all_fresh, commit_encodes, commit_slots, committed, fresh, memento_of, page_slots, slots_of,
    swap_encoded, tile_work, with_fresh, with_swapped, CommitEncoding, TargetModel,
};
use crate::gpu_document_undo::{
    block_rounded, capture_entries, capture_planned, entry_index, law_capture_covers_all_damage,
    merged, region_matches, total_blocks, total_bytes, GpuMementoResidentState, GpuUndoCapturePlan,
    MementoModel,
};
use crate::gpu_round_target::{ActiveRoundMaskTile, RoundTargetModel};
use crate::gpu_schedule_laws::{lemma_page_work_was_given, lemma_work_is_on_its_page};
use crate::ordering::{lemma_sorted, lemma_sorted_contains};
use crate::raster::{Rect, RectU32};
use vstd::prelude::*;

verus! {

/// Whether a place of the device holds the pixels of a tile.
pub open spec fn held(residents: Map<AtlasSlot, LayerTileKey>, tile: ActiveRoundMaskTile) -> bool {
    residents.contains_key(tile.slot) && residents[tile.slot] == tile.key
}

/// The places of the tiles on a page, in their order.
pub open spec fn places_on(tiles: Seq<ActiveRoundMaskTile>, page: AtlasPageId) -> Seq<AtlasSlot> {
    tiles.filter(|tile: ActiveRoundMaskTile| tile.slot.page == page).map_values(
        |tile: ActiveRoundMaskTile| tile.slot,
    )
}

/// The places of the tiles on a page that the device does not hold yet, in their order.
pub open spec fn new_places_on(
    residents: Map<AtlasSlot, LayerTileKey>,
    tiles: Seq<ActiveRoundMaskTile>,
    page: AtlasPageId,
) -> Seq<AtlasSlot> {
    tiles.filter(
        |tile: ActiveRoundMaskTile| tile.slot.page == page && !held(residents, tile),
    ).map_values(|tile: ActiveRoundMaskTile| tile.slot)
}

proof fn lemma_page_places(
    residents: Map<AtlasSlot, LayerTileKey>,
    tiles: Seq<ActiveRoundMaskTile>,
    page: AtlasPageId,
)
    ensures
        slots_of(work_on_page(tile_work(tiles), page)) == places_on(tiles, page),
        slots_of(fresh(residents, work_on_page(tile_work(tiles), page))) == new_places_on(
            residents,
            tiles,
            page,
        ),
    decreases tiles.len(),
{
    reveal(Seq::filter);
    let on_page = |tile: ActiveRoundMaskTile| tile.slot.page == page;
    let new_on_page = |tile: ActiveRoundMaskTile|
        tile.slot.page == page && !held(residents, tile);
    let slot = |tile: ActiveRoundMaskTile| tile.slot;
    if tiles.len() > 0 {
        let rest = tiles.drop_last();
        lemma_page_places(residents, rest, page);
        assert(tile_work(tiles).drop_last() =~= tile_work(rest));
        let last = tiles.last();
        let work = tile_work(tiles).last();
        let earlier = work_on_page(tile_work(rest), page);
        let all = work_on_page(tile_work(tiles), page);
        if last.slot.page == page {
            assert(all == earlier.push(work));
            assert(all.drop_last() =~= earlier);
            assert(slots_of(all) =~= slots_of(earlier).push(last.slot));
            assert(places_on(tiles, page) =~= places_on(rest, page).push(last.slot));
            if held(residents, last) {
                assert(fresh(residents, all) == fresh(residents, earlier));
            } else {
                assert(fresh(residents, all) == fresh(residents, earlier).push(work));
                assert(slots_of(fresh(residents, all)) =~= slots_of(
                    fresh(residents, earlier),
                ).push(last.slot));
                assert(new_places_on(residents, tiles, page) =~= new_places_on(
                    residents,
                    rest,
                    page,
                ).push(last.slot));
            }
        } else {
            assert(all == earlier);
        }
    } else {
        assert(slots_of(work_on_page(tile_work(tiles), page)) =~= places_on(tiles, page));
        assert(slots_of(fresh(residents, work_on_page(tile_work(tiles), page)))
            =~= new_places_on(residents, tiles, page));
    }
}

proof fn lemma_slots_prefix(
    residents: Map<AtlasSlot, LayerTileKey>,
    pages: Seq<AtlasPageBatch<RectU32>>,
    k: int,
)
    requires
        0 <= k <= pages.len(),
    ensures
        ({
            let all = commit_slots(residents, pages);
            let part = commit_slots(residents, pages.subrange(0, k));
            part.len() <= all.len() && all.subrange(0, part.len() as int) == part
        }),
    decreases pages.len() - k,
{
    let all = commit_slots(residents, pages);
    let prefix = pages.subrange(0, k);
    let part = commit_slots(residents, prefix);
    if k == pages.len() {
        assert(prefix =~= pages);
        assert(all.subrange(0, part.len() as int) =~= part);
    } else {
        lemma_slots_prefix(residents, pages, k + 1);
        let longer = pages.subrange(0, k + 1);
        assert(longer.drop_last() =~= prefix);
        let more = commit_slots(residents, longer);
        assert(more.subrange(0, part.len() as int) =~= part);
        assert(all.subrange(0, part.len() as int) =~= part);
    }
}

/// A commit clears exactly the places of tiles that the device does not hold yet, and then draws
/// color on the place of every touched tile once, page by page. The pages follow one another in the
/// list of places and fill it, and the page of every tile is among them.
pub proof fn law_commit_clears_new_tiles_and_draws_all(
    target: TargetModel,
    tiles: Seq<ActiveRoundMaskTile>,
    pages: Seq<AtlasPageBatch<RectU32>>,
    capture_undo: bool,
    encoding: CommitEncoding,
    k: int,
)
    requires
        page_batches(tile_work(tiles), pages),
        commit_encodes(target, tiles, pages, capture_undo, encoding),
        0 <= k < encoding.pages@.len(),
    ensures
        ({
            let page = encoding.pages@[k];
            let slots = encoding.slots@;
            &&& 0 <= page.clear_start <= page.clear_end <= page.commit_end <= slots.len()
            &&& slots.subrange(page.clear_start as int, page.clear_end as int) == new_places_on(
                target.residents,
                tiles,
                page.page,
            )
            &&& slots.subrange(page.clear_end as int, page.commit_end as int) == places_on(
                tiles,
                page.page,
            )
            &&& k == 0 ==> page.clear_start == 0
            &&& k > 0 ==> page.clear_start == encoding.pages@[k - 1].commit_end
                && encoding.pages@[k - 1].page.0 < page.page.0
            &&& k == encoding.pages@.len() - 1 ==> page.commit_end == slots.len()
        }),
        forall|t: int|
            #![trigger tiles[t]]
            0 <= t < tiles.len() ==> exists|p: int|
                0 <= p < encoding.pages@.len() && (#[trigger] encoding.pages@[p]).page
                    == tiles[t].slot.page,
{
    let residents = target.residents;
    let page = encoding.pages@[k];
    let slots = encoding.slots@;
    let work = pages[k].work@;
    let before = commit_slots(residents, pages.subrange(0, k));
    let through = commit_slots(residents, pages.subrange(0, k + 1));
    assert(pages.subrange(0, k + 1).drop_last() =~= pages.subrange(0, k));
    assert(through == before + page_slots(residents, work));
    lemma_slots_prefix(residents, pages, k + 1);
    lemma_page_places(residents, tiles, pages[k].page);
    assert(work == work_on_page(tile_work(tiles), pages[k].page));
    assert(slots.subrange(page.clear_start as int, page.clear_end as int) =~= slots_of(
        fresh(residents, work),
    )) by {
        assert forall|i: int| 0 <= i < fresh(residents, work).len() implies slots[before.len()
            + i] == slots_of(fresh(residents, work))[i] by {
            assert(slots.subrange(0, through.len() as int)[before.len() + i] == through[before.len()
                + i]);
        }
    }
    assert(slots.subrange(page.clear_end as int, page.commit_end as int) =~= slots_of(work)) by {
        let cleared = fresh(residents, work).len();
        assert forall|i: int| 0 <= i < work.len() implies slots[before.len() + cleared + i]
            == slots_of(work)[i] by {
            assert(slots.subrange(0, through.len() as int)[before.len() + cleared + i]
                == through[before.len() + cleared + i]);
        }
    }
    if k > 0 {
        assert(encoding.pages@[k - 1].page == pages[k - 1].page);
        assert(pages[k - 1].page.0 < pages[k].page.0);
    } else {
        assert(pages.subrange(0, 0) =~= Seq::<AtlasPageBatch<RectU32>>::empty());
    }
    if k == pages.len() - 1 {
        assert(pages.subrange(0, k + 1) =~= pages);
    }
    assert forall|t: int| #![trigger tiles[t]] 0 <= t < tiles.len() implies exists|p: int|
        0 <= p < encoding.pages@.len() && (#[trigger] encoding.pages@[p]).page
            == tiles[t].slot.page by {
        let given = tile_work(tiles);
        assert(given[t].slot == tiles[t].slot);
        let p = choose|p: int|
            0 <= p < pages.len() && (#[trigger] pages[p]).page == given[t].slot.page;
        assert(encoding.pages@[p].page == pages[p].page);
    }
}

/// What is fresh was given and is not held.
proof fn lemma_fresh_item(
    residents: Map<AtlasSlot, LayerTileKey>,
    work: Seq<ResidentWork<RectU32>>,
    item: ResidentWork<RectU32>,
)
    ensures
        fresh(residents, work).contains(item) <==> work.contains(item) && !(
        residents.contains_key(item.slot) && residents[item.slot] == item.key),
    decreases work.len(),
{
    if work.len() > 0 {
        let rest = work.drop_last();
        lemma_fresh_item(residents, rest, item);
        let part = fresh(residents, rest);
        let all = fresh(residents, work);
        if work.contains(item) {
            let i = choose|i: int| 0 <= i < work.len() && work[i] == item;
            if i < rest.len() {
                assert(rest[i] == item);
            }
        }
        if rest.contains(item) {
            let i = choose|i: int| 0 <= i < rest.len() && rest[i] == item;
            assert(work[i] == item);
        }
        assert(work[work.len() - 1] == work.last());
        if part.contains(item) {
            let i = choose|i: int| 0 <= i < part.len() && part[i] == item;
            assert(all[i] == item);
        }
        if all.contains(item) {
            let i = choose|i: int| 0 <= i < all.len() && all[i] == item;
            if i < part.len() {
                assert(part[i] == item);
            }
        }
        if all.len() > part.len() {
            assert(all[part.len() as int] == work.last());
        }
    }
}

proof fn lemma_all_fresh_item(
    residents: Map<AtlasSlot, LayerTileKey>,
    pages: Seq<AtlasPageBatch<RectU32>>,
    item: ResidentWork<RectU32>,
)
    ensures
        all_fresh(residents, pages).contains(item) <==> exists|p: int|
            0 <= p < pages.len() && (#[trigger] pages[p]).work@.contains(item) && !(
            residents.contains_key(item.slot) && residents[item.slot] == item.key),
    decreases pages.len(),
{
    if pages.len() > 0 {
        let rest = pages.drop_last();
        let last = pages.len() - 1;
        lemma_all_fresh_item(residents, rest, item);
        lemma_fresh_item(residents, pages[last].work@, item);
        let head = all_fresh(residents, rest);
        let tail = fresh(residents, pages[last].work@);
        let all = all_fresh(residents, pages);
        assert(all == head + tail);
        if all.contains(item) {
            let i = choose|i: int| 0 <= i < all.len() && all[i] == item;
            if i < head.len() {
                assert(head[i] == item);
                let p = choose|p: int|
                    0 <= p < rest.len() && (#[trigger] rest[p]).work@.contains(item);
                assert(pages[p].work@.contains(item));
            } else {
                assert(tail[i - head.len()] == item);
                assert(pages[last].work@.contains(item));
            }
        }
        if exists|p: int|
            0 <= p < pages.len() && (#[trigger] pages[p]).work@.contains(item) && !(
            residents.contains_key(item.slot) && residents[item.slot] == item.key) {
            let p = choose|p: int|
                0 <= p < pages.len() && (#[trigger] pages[p]).work@.contains(item) && !(
                residents.contains_key(item.slot) && residents[item.slot] == item.key);
            if p < last {
                assert(rest[p].work@.contains(item));
                let i = choose|i: int| 0 <= i < head.len() && head[i] == item;
                assert(all[i] == item);
            } else {
                let i = choose|i: int| 0 <= i < tail.len() && tail[i] == item;
                assert(all[head.len() + i] == item);
            }
        }
    }
}

proof fn lemma_with_fresh(
    residents: Map<AtlasSlot, LayerTileKey>,
    work: Seq<ResidentWork<RectU32>>,
    slot: AtlasSlot,
)
    ensures
        ({
            let after = with_fresh(residents, work);
            &&& (exists|i: int| 0 <= i < work.len() && (#[trigger] work[i]).slot == slot) ==> {
                &&& after.contains_key(slot)
                &&& exists|i: int|
                    0 <= i < work.len() && (#[trigger] work[i]).slot == slot && after[slot]
                        == work[i].key
            }
            &&& !(exists|i: int| 0 <= i < work.len() && (#[trigger] work[i]).slot == slot) ==> {
                &&& after.contains_key(slot) == residents.contains_key(slot)
                &&& residents.contains_key(slot) ==> after[slot] == residents[slot]
            }
        }),
    decreases work.len(),
{
    if work.len() > 0 {
        let rest = work.drop_last();
        lemma_with_fresh(residents, rest, slot);
        let last = work.len() - 1;
        let after = with_fresh(residents, work);
        if work[last].slot == slot {
            assert(after[slot] == work[last].key);
        } else {
            if exists|i: int| 0 <= i < work.len() && (#[trigger] work[i]).slot == slot {
                let i = choose|i: int| 0 <= i < work.len() && (#[trigger] work[i]).slot == slot;
                assert(rest[i].slot == slot);
                let j = choose|j: int|
                    0 <= j < rest.len() && (#[trigger] rest[j]).slot == slot && with_fresh(
                        residents,
                        rest,
                    )[slot] == rest[j].key;
                assert(work[j] == rest[j]);
            } else if exists|i: int| 0 <= i < rest.len() && (#[trigger] rest[i]).slot == slot {
                let i = choose|i: int| 0 <= i < rest.len() && (#[trigger] rest[i]).slot == slot;
                assert(work[i].slot == slot);
            }
        }
    }
}

/// After a commit the device holds every touched tile at its place, and every other place holds what
/// it held.
pub proof fn law_committed_tiles_are_held(
    before: TargetModel,
    mask: RoundTargetModel,
    tiles: Seq<ActiveRoundMaskTile>,
    pages: Seq<AtlasPageBatch<RectU32>>,
    capture_undo: bool,
    after: TargetModel,
    slot: AtlasSlot,
)
    requires
        page_batches(tile_work(tiles), pages),
        committed(before, mask, pages, capture_undo, after),
        forall|i: int, j: int|
            #![trigger tiles[i], tiles[j]]
            0 <= i < tiles.len() && 0 <= j < tiles.len() && tiles[i].slot == tiles[j].slot
                ==> tiles[i].key == tiles[j].key,
    ensures
        forall|t: int|
            #![trigger tiles[t]]
            0 <= t < tiles.len() && tiles[t].slot == slot ==> after.residents.contains_key(slot)
                && after.residents[slot] == tiles[t].key,
        !(exists|t: int| 0 <= t < tiles.len() && (#[trigger] tiles[t]).slot == slot) ==> {
            &&& after.residents.contains_key(slot) == before.residents.contains_key(slot)
            &&& before.residents.contains_key(slot) ==> after.residents[slot]
                == before.residents[slot]
        },
        after.pending_commit is Some,
        after.layout == before.layout,
        after.id == before.id,
{
    let residents = before.residents;
    let drawn = all_fresh(residents, pages);
    let given = tile_work(tiles);
    lemma_with_fresh(residents, drawn, slot);
    assert forall|i: int| 0 <= i < drawn.len() implies exists|t: int|
        0 <= t < tiles.len() && (#[trigger] tiles[t]).slot == (#[trigger] drawn[i]).slot
            && tiles[t].key == drawn[i].key by {
        assert(drawn.contains(drawn[i]));
        lemma_all_fresh_item(residents, pages, drawn[i]);
        let p = choose|p: int|
            0 <= p < pages.len() && (#[trigger] pages[p]).work@.contains(drawn[i]);
        let w = choose|w: int| 0 <= w < pages[p].work@.len() && pages[p].work@[w] == drawn[i];
        let t = lemma_page_work_was_given(given, pages[p].page, w);
        assert(tiles[t].slot == given[t].slot);
    }
    assert forall|t: int|
        #![trigger tiles[t]]
        0 <= t < tiles.len() && tiles[t].slot == slot implies after.residents.contains_key(slot)
        && after.residents[slot] == tiles[t].key by {
        let item = given[t];
        assert(item.slot == slot && item.key == tiles[t].key);
        if residents.contains_key(slot) && residents[slot] == tiles[t].key {
            if exists|i: int| 0 <= i < drawn.len() && (#[trigger] drawn[i]).slot == slot {
                let i = choose|i: int|
                    0 <= i < drawn.len() && (#[trigger] drawn[i]).slot == slot
                        && after.residents[slot] == drawn[i].key;
                let u = choose|u: int|
                    0 <= u < tiles.len() && (#[trigger] tiles[u]).slot == drawn[i].slot
                        && tiles[u].key == drawn[i].key;
                assert(tiles[u].slot == tiles[t].slot);
            }
        } else {
            let p = choose|p: int|
                0 <= p < pages.len() && (#[trigger] pages[p]).page == given[t].slot.page;
            let w = lemma_work_is_on_its_page(given, t);
            assert(pages[p].work@ == work_on_page(given, pages[p].page));
            assert(pages[p].work@[w] == item);
            assert(pages[p].work@.contains(item));
            lemma_all_fresh_item(residents, pages, item);
            let n = choose|n: int| 0 <= n < drawn.len() && drawn[n] == item;
            assert(drawn[n].slot == slot);
            let i = choose|i: int|
                0 <= i < drawn.len() && (#[trigger] drawn[i]).slot == slot
                    && after.residents[slot] == drawn[i].key;
            let u = choose|u: int|
                0 <= u < tiles.len() && (#[trigger] tiles[u]).slot == drawn[i].slot
                    && tiles[u].key == drawn[i].key;
            assert(tiles[u].slot == tiles[t].slot);
        }
    }
    if !(exists|t: int| 0 <= t < tiles.len() && (#[trigger] tiles[t]).slot == slot) {
        if exists|i: int| 0 <= i < drawn.len() && (#[trigger] drawn[i]).slot == slot {
            let i = choose|i: int| 0 <= i < drawn.len() && (#[trigger] drawn[i]).slot == slot;
            let t = choose|t: int|
                0 <= t < tiles.len() && (#[trigger] tiles[t]).slot == drawn[i].slot
                    && tiles[t].key == drawn[i].key;
            assert(tiles[t].slot == slot);
        }
    }
}

/// What a capture saves lies where the damage lies: for every damaged pixel of a tile, the pixel of
/// the page that shows it lies in the rectangle that some region of that tile copies.
pub proof fn law_capture_saves_every_damaged_pixel(
    layout: AtlasLayout,
    tiles: Seq<ActiveRoundMaskTile>,
    plan: GpuUndoCapturePlan,
    i: int,
    x: int,
    y: int,
)
    requires
        capture_planned(layout, tiles, Ok(plan)),
        0 <= i < tiles.len(),
        tiles[i].local_damage@.contains(x, y),
    ensures
        exists|r: int|
            {
                &&& 0 <= r < plan@.regions.len()
                &&& (#[trigger] plan@.regions[r]).key == tiles[i].key
                &&& plan@.regions[r].slot == tiles[i].slot
                &&& plan@.regions[r].physical_origin[0] <= tiles[i].slot.origin_x + x
                    < plan@.regions[r].physical_origin[0] + plan@.regions[r].extent[0]
                &&& plan@.regions[r].physical_origin[1] <= tiles[i].slot.origin_y + y
                    < plan@.regions[r].physical_origin[1] + plan@.regions[r].extent[1]
            },
{
    law_capture_covers_all_damage(layout, tiles, plan, i);
    let r = choose|r: int|
        0 <= r < plan@.regions.len() && (#[trigger] plan@.regions[r]).key == tiles[i].key
            && plan@.regions[r].slot == tiles[i].slot
            && plan@.regions[r].local_bounds@.covers(tiles[i].local_damage@);
    law_capture_regions_lie_in_their_places(layout, tiles, plan, r);
}

/// Each region of a capture copies whole blocks of its tile from where they lie on the page, row by
/// row without gaps, and the regions follow one another in the buffer from its start.
pub proof fn law_capture_regions_lie_in_their_places(
    layout: AtlasLayout,
    tiles: Seq<ActiveRoundMaskTile>,
    plan: GpuUndoCapturePlan,
    r: int,
)
    requires
        capture_planned(layout, tiles, Ok(plan)),
        0 <= r < plan@.regions.len(),
    ensures
        ({
            let region = plan@.regions[r];
            let bounds = region.local_bounds@;
            &&& region.physical_origin[0] - region.slot.origin_x == bounds.min_x
            &&& region.physical_origin[1] - region.slot.origin_y == bounds.min_y
            &&& region.extent[0] == bounds.max_x - bounds.min_x
            &&& region.extent[1] == bounds.max_y - bounds.min_y
            &&& region.bytes_per_row == 16 * region.extent[0]
            &&& 256 * region.block_count == region.extent[0] * region.extent[1]
            &&& bounds.min_x % 16 == 0 && bounds.min_y % 16 == 0
            &&& bounds.max_x % 16 == 0 && bounds.max_y % 16 == 0
            &&& r == 0 ==> region.buffer_offset == 0
            &&& r > 0 ==> region.buffer_offset == plan@.regions[r - 1].buffer_offset
                + plan@.regions[r - 1].extent[0] * 16 * plan@.regions[r - 1].extent[1]
            &&& r == plan@.regions.len() - 1 ==> plan@.byte_len == region.buffer_offset
                + region.extent[0] * 16 * region.extent[1]
        }),
{
    let entries = capture_entries(tiles);
    let region = plan@.regions[r];
    let bounds = block_rounded(entries[r].local_damage@);
    assert(region_matches(region, entries[r], total_bytes(entries.subrange(0, r))));
    assert(entries.subrange(0, r + 1).drop_last() =~= entries.subrange(0, r));
    assert(entries.subrange(0, r + 1).last() == entries[r]);
    let across = bounds.width() / 16;
    let down = bounds.height() / 16;
    assert(bounds.width() == 16 * across);
    assert(bounds.height() == 16 * down);
    assert(256 * (across * down) == (16 * across) * (16 * down)) by (nonlinear_arith);
    if r > 0 {
        let earlier = plan@.regions[r - 1];
        assert(region_matches(earlier, entries[r - 1], total_bytes(entries.subrange(0, r - 1))));
        assert(entries.subrange(0, r).drop_last() =~= entries.subrange(0, r - 1));
        assert(entries.subrange(0, r).last() == entries[r - 1]);
    } else {
        assert(entries.subrange(0, 0) =~= Seq::<ActiveRoundMaskTile>::empty());
    }
    if r == plan@.regions.len() - 1 {
        assert(entries.subrange(0, r + 1) =~= entries);
    }
}

proof fn lemma_block_bytes(entries: Seq<ActiveRoundMaskTile>)
    ensures
        total_bytes(entries) == 4096 * total_blocks(entries),
    decreases entries.len(),
{
    if entries.len() > 0 {
        lemma_block_bytes(entries.drop_last());
        let bounds = block_rounded(entries.last().local_damage@);
        let across = bounds.width() / 16;
        let down = bounds.height() / 16;
        assert(bounds.width() == 16 * across);
        assert(bounds.height() == 16 * down);
        assert((16 * across) * 16 * (16 * down) == 4096 * (across * down)) by (nonlinear_arith);
    }
}

/// What is saved for undo is counted in blocks of sixteen by sixteen pixels, of sixteen bytes each.
pub proof fn law_capture_counts_whole_blocks(
    layout: AtlasLayout,
    tiles: Seq<ActiveRoundMaskTile>,
    plan: GpuUndoCapturePlan,
)
    requires
        capture_planned(layout, tiles, Ok(plan)),
    ensures
        plan@.byte_len == 4096 * plan@.block_count,
        plan@.layout == layout,
        layout@.tile_size % 16 == 0,
{
    lemma_block_bytes(capture_entries(tiles));
}

/// A tile of the list damages the place of an entry and ends where `edge` says.
pub open spec fn some_damage(
    tiles: Seq<ActiveRoundMaskTile>,
    key: LayerTileKey,
    slot: AtlasSlot,
    edge: spec_fn(Rect) -> int,
    value: int,
) -> bool {
    exists|i: int|
        0 <= i < tiles.len() && (#[trigger] tiles[i]).key == key && tiles[i].slot == slot && edge(
            tiles[i].local_damage@,
        ) == value
}

/// Each side of the rectangle is where the damage of some tile at that place ends.
pub open spec fn damage_hull(
    tiles: Seq<ActiveRoundMaskTile>,
    key: LayerTileKey,
    slot: AtlasSlot,
    rect: Rect,
) -> bool {
    &&& some_damage(tiles, key, slot, |r: Rect| r.min_x, rect.min_x)
    &&& some_damage(tiles, key, slot, |r: Rect| r.min_y, rect.min_y)
    &&& some_damage(tiles, key, slot, |r: Rect| r.max_x, rect.max_x)
    &&& some_damage(tiles, key, slot, |r: Rect| r.max_y, rect.max_y)
}

proof fn lemma_damage_stays(
    tiles: Seq<ActiveRoundMaskTile>,
    key: LayerTileKey,
    slot: AtlasSlot,
    edge: spec_fn(Rect) -> int,
    value: int,
)
    requires
        tiles.len() > 0,
        some_damage(tiles.drop_last(), key, slot, edge, value),
    ensures
        some_damage(tiles, key, slot, edge, value),
{
    let rest = tiles.drop_last();
    let i = choose|i: int|
        0 <= i < rest.len() && (#[trigger] rest[i]).key == key && rest[i].slot == slot && edge(
            rest[i].local_damage@,
        ) == value;
    assert(tiles[i] == rest[i]);
}

/// The merged entries: no place twice, and each the hull of its damage.
proof fn lemma_merged_hull(tiles: Seq<ActiveRoundMaskTile>)
    ensures
        forall|e: int|
            #![trigger merged(tiles)[e]]
            0 <= e < merged(tiles).len() ==> damage_hull(
                tiles,
                merged(tiles)[e].key,
                merged(tiles)[e].slot,
                merged(tiles)[e].local_damage@,
            ),
        forall|e: int, f: int|
            #![trigger merged(tiles)[e], merged(tiles)[f]]
            0 <= e < f < merged(tiles).len() ==> merged(tiles)[e].key != merged(tiles)[f].key
                || merged(tiles)[e].slot != merged(tiles)[f].slot,
    decreases tiles.len(),
{
    if tiles.len() > 0 {
        let rest = tiles.drop_last();
        let last = tiles.last();
        lemma_merged_hull(rest);
        let entries = merged(rest);
        let all = merged(tiles);
        let at = entry_index(entries, last);
        lemma_entry_index(entries, last);
        let mx = |r: Rect| r.min_x;
        let my = |r: Rect| r.min_y;
        let nx = |r: Rect| r.max_x;
        let ny = |r: Rect| r.max_y;
        let own = last.local_damage@;
        assert(tiles[tiles.len() - 1] == last);
        assert(some_damage(tiles, last.key, last.slot, mx, own.min_x));
        assert(some_damage(tiles, last.key, last.slot, my, own.min_y));
        assert(some_damage(tiles, last.key, last.slot, nx, own.max_x));
        assert(some_damage(tiles, last.key, last.slot, ny, own.max_y));
        assert forall|e: int| #![trigger all[e]] 0 <= e < all.len() implies damage_hull(
            tiles,
            all[e].key,
            all[e].slot,
            all[e].local_damage@,
        ) by {
            if e < entries.len() {
                let was = entries[e];
                assert(damage_hull(rest, was.key, was.slot, was.local_damage@));
                lemma_damage_stays(tiles, was.key, was.slot, mx, was.local_damage@.min_x);
                lemma_damage_stays(tiles, was.key, was.slot, my, was.local_damage@.min_y);
                lemma_damage_stays(tiles, was.key, was.slot, nx, was.local_damage@.max_x);
                lemma_damage_stays(tiles, was.key, was.slot, ny, was.local_damage@.max_y);
            }
        }
        assert forall|e: int, f: int|
            #![trigger all[e], all[f]]
            0 <= e < f < all.len() implies all[e].key != all[f].key || all[e].slot
            != all[f].slot by {
            if f < entries.len() {
                assert(entries[e].key != entries[f].key || entries[e].slot != entries[f].slot);
            } else {
                assert(entries[e].key != last.key || entries[e].slot != last.slot);
            }
        }
    }
}

proof fn lemma_entry_index(entries: Seq<ActiveRoundMaskTile>, tile: ActiveRoundMaskTile)
    ensures
        0 <= entry_index(entries, tile) <= entries.len(),
        entry_index(entries, tile) < entries.len() ==> entries[entry_index(entries, tile)].key
            == tile.key && entries[entry_index(entries, tile)].slot == tile.slot,
        forall|e: int|
            #![trigger entries[e]]
            0 <= e < entry_index(entries, tile) ==> entries[e].key != tile.key || entries[e].slot
                != tile.slot,
    decreases entries.len(),
{
    if entries.len() > 0 && !(entries[0].key == tile.key && entries[0].slot == tile.slot) {
        let rest = entries.drop_first();
        lemma_entry_index(rest, tile);
        assert forall|e: int|
            #![trigger entries[e]]
            0 <= e < entry_index(entries, tile) implies entries[e].key != tile.key
            || entries[e].slot != tile.slot by {
            if e > 0 {
                assert(rest[e - 1] == entries[e]);
            }
        }
    }
}

/// A capture saves no more blocks than the damage touches: of each region, every outermost row and
/// column of blocks holds the edge of the damage at that place. No place is captured twice.
pub proof fn law_capture_saves_no_block_in_vain(
    layout: AtlasLayout,
    tiles: Seq<ActiveRoundMaskTile>,
    plan: GpuUndoCapturePlan,
    r: int,
)
    requires
        capture_planned(layout, tiles, Ok(plan)),
        0 <= r < plan@.regions.len(),
    ensures
        exists|hull: Rect|
            {
                &&& #[trigger] damage_hull(tiles, plan@.regions[r].key, plan@.regions[r].slot, hull)
                &&& plan@.regions[r].local_bounds@.min_x <= hull.min_x
                    < plan@.regions[r].local_bounds@.min_x + 16
                &&& plan@.regions[r].local_bounds@.min_y <= hull.min_y
                    < plan@.regions[r].local_bounds@.min_y + 16
                &&& plan@.regions[r].local_bounds@.max_x - 16 < hull.max_x
                    <= plan@.regions[r].local_bounds@.max_x
                &&& plan@.regions[r].local_bounds@.max_y - 16 < hull.max_y
                    <= plan@.regions[r].local_bounds@.max_y
            },
        forall|q: int|
            #![trigger plan@.regions[q]]
            0 <= q < plan@.regions.len() && q != r ==> plan@.regions[q].key
                != plan@.regions[r].key || plan@.regions[q].slot != plan@.regions[r].slot,
{
    broadcast use vstd::seq_lib::group_to_multiset_ensures;

    let entries = capture_entries(tiles);
    let found = merged(tiles);
    lemma_merged_hull(tiles);
    lemma_sorted(found);
    assert(region_matches(plan@.regions[r], entries[r], total_bytes(entries.subrange(0, r))));
    assert(entries.contains(entries[r]));
    lemma_sorted_contains(found, entries[r]);
    let e = choose|e: int| 0 <= e < found.len() && found[e] == entries[r];
    let hull = entries[r].local_damage@;
    assert(damage_hull(tiles, found[e].key, found[e].slot, found[e].local_damage@));
    assert(found.no_duplicates()) by {
        assert forall|a: int, b: int|
            0 <= a < found.len() && 0 <= b < found.len() && a != b implies found[a] != found[b] by {
            if a < b {
                assert(found[a].key != found[b].key || found[a].slot != found[b].slot);
            } else {
                assert(found[b].key != found[a].key || found[b].slot != found[a].slot);
            }
        }
    }
    found.lemma_multiset_has_no_duplicates();
    assert(entries.to_multiset() == found.to_multiset());
    entries.lemma_multiset_has_no_duplicates_conv();
    assert forall|q: int|
        #![trigger plan@.regions[q]]
        0 <= q < plan@.regions.len() && q != r implies plan@.regions[q].key
        != plan@.regions[r].key || plan@.regions[q].slot != plan@.regions[r].slot by {
        assert(region_matches(plan@.regions[q], entries[q], total_bytes(entries.subrange(0, q))));
        assert(entries.contains(entries[q]));
        lemma_sorted_contains(found, entries[q]);
        let f = choose|f: int| 0 <= f < found.len() && found[f] == entries[q];
        assert(entries[q] != entries[r]);
        if e < f {
            assert(found[e].key != found[f].key || found[e].slot != found[f].slot);
        } else {
            assert(found[f].key != found[e].key || found[f].slot != found[e].slot);
        }
    }
}

/// A memento remembers of each region whether the device held its tile before, and that the edit
/// fills it.
pub proof fn law_memento_remembers_what_was_held(
    layout: AtlasLayout,
    residents: Map<AtlasSlot, LayerTileKey>,
    tiles: Seq<ActiveRoundMaskTile>,
    memento: MementoModel,
    r: int,
)
    requires
        memento_of(layout, residents, tiles, memento),
        0 <= r < memento.plan.regions.len(),
    ensures
        memento.states.len() == memento.plan.regions.len(),
        memento.states[r].key == memento.plan.regions[r].key,
        memento.states[r].slot == memento.plan.regions[r].slot,
        memento.states[r].document_initialized,
        memento.states[r].memento_initialized == (residents.contains_key(
            memento.plan.regions[r].slot,
        ) && residents[memento.plan.regions[r].slot] == memento.plan.regions[r].key),
{
}

/// After document and memento have traded their pixels, a place holds its tile exactly where the
/// memento held pixels of it; places that the memento does not name hold what they held.
pub proof fn law_swap_brings_back_what_the_memento_held(
    before: TargetModel,
    memento: MementoModel,
    after: TargetModel,
    slot: AtlasSlot,
)
    requires
        swap_encoded(before, memento, after),
        forall|i: int, j: int|
            #![trigger memento.states[i], memento.states[j]]
            0 <= i < j < memento.states.len() ==> memento.states[i].slot != memento.states[j].slot,
    ensures
        forall|i: int|
            #![trigger memento.states[i]]
            0 <= i < memento.states.len() && memento.states[i].slot == slot ==> {
                &&& after.residents.contains_key(slot) == memento.states[i].memento_initialized
                &&& memento.states[i].memento_initialized ==> after.residents[slot]
                    == memento.states[i].key
            },
        !(exists|i: int|
            0 <= i < memento.states.len() && (#[trigger] memento.states[i]).slot == slot) ==> {
            &&& after.residents.contains_key(slot) == before.residents.contains_key(slot)
            &&& before.residents.contains_key(slot) ==> after.residents[slot]
                == before.residents[slot]
        },
        after.pages == before.pages,
        after.layout == before.layout,
{
    lemma_swapped_place(before.residents, memento.states, memento.states.len() as int, slot);
}

proof fn lemma_swapped_place(
    residents: Map<AtlasSlot, LayerTileKey>,
    states: Seq<GpuMementoResidentState>,
    n: int,
    slot: AtlasSlot,
)
    requires
        0 <= n <= states.len(),
        forall|i: int, j: int|
            #![trigger states[i], states[j]]
            0 <= i < j < states.len() ==> states[i].slot != states[j].slot,
    ensures
        ({
            let after = with_swapped(residents, states, n);
            &&& forall|i: int|
                #![trigger states[i]]
                0 <= i < n && states[i].slot == slot ==> {
                    &&& after.contains_key(slot) == states[i].memento_initialized
                    &&& states[i].memento_initialized ==> after[slot] == states[i].key
                }
            &&& !(exists|i: int| 0 <= i < n && (#[trigger] states[i]).slot == slot) ==> {
                &&& after.contains_key(slot) == residents.contains_key(slot)
                &&& residents.contains_key(slot) ==> after[slot] == residents[slot]
            }
        }),
    decreases n,
{
    if n > 0 {
        lemma_swapped_place(residents, states, n - 1, slot);
        assert forall|i: int|
            #![trigger states[i]]
            0 <= i < n - 1 && states[i].slot == slot implies states[n - 1].slot != slot by {
            assert(states[i].slot != states[n - 1].slot);
        }
        if !(exists|i: int| 0 <= i < n && (#[trigger] states[i]).slot == slot) {
            assert(states[n - 1].slot != slot);
        }
    }
}

} // verus!
