//! What a batch draws on a mask, and what the surface of a stroke computes and hands on.

use crate::document::LayerId;
use crate::gpu_atlas::{
    slot_of_key, AtlasGeometry, AtlasPageBatch, AtlasPageId, AtlasSlot, LayerTileKey,
    ResidentWork,
};
use crate::gpu_document_target::TargetModel;
use crate::gpu_material::{
    all_copies, around, copies_of, damaged_around, dispatch_of, dispatches_of, held_relief,
    pages_opened, refreshed, relief_slot, stroke_slot, tile_needs_page, MaterialCopy,
    SurfaceDispatch, SurfaceModel, SurfaceRefresh,
};
use crate::gpu_resident_strokes::slot_at;
use crate::gpu_round::{RoundBatchModel, RoundMaskInstance};
use crate::gpu_round_target::{
    damaged, encoded_state, encodes, first_touched, flat_work, resident_of, ActiveRoundMaskTile,
    Resident, RoundMaskEncoding, RoundTargetModel,
};
use crate::raster::{Rect, TileCoord};
use crate::stroke::PaintOperation;
use vstd::prelude::*;

verus! {

proof fn lemma_flat_prefix(pages: Seq<AtlasPageBatch<RoundMaskInstance>>, k: int)
    requires
        0 <= k <= pages.len(),
    ensures
        ({
            let all = flat_work(pages);
            let part = flat_work(pages.subrange(0, k));
            part.len() <= all.len() && all.subrange(0, part.len() as int) == part
        }),
    decreases pages.len() - k,
{
    let all = flat_work(pages);
    let part = flat_work(pages.subrange(0, k));
    if k == pages.len() {
        assert(pages.subrange(0, k) =~= pages);
        assert(all.subrange(0, part.len() as int) =~= part);
    } else {
        lemma_flat_prefix(pages, k + 1);
        let longer = pages.subrange(0, k + 1);
        assert(longer.drop_last() =~= pages.subrange(0, k));
        assert(flat_work(longer).subrange(0, part.len() as int) =~= part);
        assert(all.subrange(0, part.len() as int) =~= part);
    }
}

proof fn lemma_flat_item(
    pages: Seq<AtlasPageBatch<RoundMaskInstance>>,
    i: int,
) -> (place: (int, int))
    requires
        0 <= i < flat_work(pages).len(),
    ensures
        0 <= place.0 < pages.len(),
        0 <= place.1 < pages[place.0].work@.len(),
        flat_work(pages)[i] == pages[place.0].work@[place.1],
    decreases pages.len(),
{
    if pages.len() == 0 {
        (0, 0)
    } else {
        let rest = pages.drop_last();
        let head = flat_work(rest);
        if i < head.len() {
            let place = lemma_flat_item(rest, i);
            assert(rest[place.0] == pages[place.0]);
            place
        } else {
            (pages.len() - 1, i - head.len())
        }
    }
}

/// The instances of a batch are drawn page by page: each page draws exactly its own work, in order,
/// and the pages follow one another and leave nothing out.
pub proof fn law_batch_draws_the_work_of_each_page(
    active: Map<Resident, Rect>,
    batch: RoundBatchModel,
    encoding: RoundMaskEncoding,
    k: int,
)
    requires
        encodes(active, batch, encoding),
        0 <= k < batch.pages.len(),
    ensures
        ({
            let page = encoding.pages@[k];
            &&& encoding.pages@.len() == batch.pages.len()
            &&& page.page == batch.pages[k].page
            &&& 0 <= page.round_start <= page.round_end <= encoding.round_instances@.len()
            &&& encoding.round_instances@.subrange(page.round_start as int, page.round_end as int)
                == batch.pages[k].work@.map_values(
                |work: ResidentWork<RoundMaskInstance>| work.payload,
            )
            &&& k == 0 ==> page.round_start == 0
            &&& k > 0 ==> page.round_start == encoding.pages@[k - 1].round_end
            &&& k == batch.pages.len() - 1 ==> page.round_end == encoding.round_instances@.len()
        }),
{
    let pages = batch.pages;
    let page = encoding.pages@[k];
    let before = flat_work(pages.subrange(0, k));
    let after = flat_work(pages.subrange(0, k + 1));
    assert(pages.subrange(0, k + 1).drop_last() =~= pages.subrange(0, k));
    lemma_flat_prefix(pages, k + 1);
    let all = flat_work(pages);
    let work = pages[k].work@;
    let drawn = encoding.round_instances@.subrange(page.round_start as int, page.round_end as int);
    assert(drawn =~= work.map_values(|work: ResidentWork<RoundMaskInstance>| work.payload)) by {
        assert forall|i: int| 0 <= i < work.len() implies drawn[i] == work[i].payload by {
            assert(all.subrange(0, after.len() as int)[before.len() + i] == after[before.len()
                + i]);
        }
    }
    if k == 0 {
        assert(pages.subrange(0, 0) =~= Seq::<AtlasPageBatch<RoundMaskInstance>>::empty());
    } else {
        assert(encoding.pages@[k - 1].round_end == before.len());
    }
    if k == pages.len() - 1 {
        assert(pages.subrange(0, k + 1) =~= pages);
    }
}

proof fn lemma_first_touched(
    active: Map<Resident, Rect>,
    work: Seq<ResidentWork<RoundMaskInstance>>,
    resident: Resident,
)
    ensures
        first_touched(active, work).contains(resident) <==> !active.contains_key(resident)
            && exists|i: int|
            0 <= i < work.len() && (#[trigger] work[i]).key == resident.key && work[i].slot
                == resident.slot,
        first_touched(active, work).no_duplicates(),
    decreases work.len(),
{
    if work.len() > 0 {
        let rest = work.drop_last();
        let last = work.len() - 1;
        lemma_first_touched(active, rest, resident);
        let earlier = first_touched(active, rest);
        let all = first_touched(active, work);
        let own = resident_of(work.last());
        lemma_first_touched(active, rest, own);
        if exists|i: int|
            0 <= i < work.len() && (#[trigger] work[i]).key == resident.key && work[i].slot
                == resident.slot {
            let i = choose|i: int|
                0 <= i < work.len() && (#[trigger] work[i]).key == resident.key && work[i].slot
                    == resident.slot;
            if i < last {
                assert(rest[i].key == resident.key && rest[i].slot == resident.slot);
            } else {
                assert(resident == own);
            }
        }
        if exists|i: int|
            0 <= i < rest.len() && (#[trigger] rest[i]).key == resident.key && rest[i].slot
                == resident.slot {
            let i = choose|i: int|
                0 <= i < rest.len() && (#[trigger] rest[i]).key == resident.key && rest[i].slot
                    == resident.slot;
            assert(work[i].key == resident.key && work[i].slot == resident.slot);
        }
        if !(active.contains_key(own) || earlier.contains(own)) {
            assert(all == earlier.push(own));
            assert(all[earlier.len() as int] == own);
            assert(work[last].key == own.key && work[last].slot == own.slot);
            if earlier.contains(resident) {
                let i = choose|i: int| 0 <= i < earlier.len() && earlier[i] == resident;
                assert(all[i] == resident);
            }
            if all.contains(resident) {
                let i = choose|i: int| 0 <= i < all.len() && all[i] == resident;
                if i < earlier.len() {
                    assert(earlier[i] == resident);
                }
            }
        }
    }
}

proof fn lemma_first_touched_grows(
    active: Map<Resident, Rect>,
    work: Seq<ResidentWork<RoundMaskInstance>>,
    k: int,
)
    requires
        0 <= k <= work.len(),
    ensures
        ({
            let all = first_touched(active, work);
            let part = first_touched(active, work.subrange(0, k));
            part.len() <= all.len() && all.subrange(0, part.len() as int) == part
        }),
    decreases work.len() - k,
{
    let all = first_touched(active, work);
    let part = first_touched(active, work.subrange(0, k));
    if k == work.len() {
        assert(work.subrange(0, k) =~= work);
        assert(all.subrange(0, part.len() as int) =~= part);
    } else {
        lemma_first_touched_grows(active, work, k + 1);
        let longer = work.subrange(0, k + 1);
        assert(longer.drop_last() =~= work.subrange(0, k));
        assert(first_touched(active, longer).subrange(0, part.len() as int) =~= part);
        assert(all.subrange(0, part.len() as int) =~= part);
    }
}

/// A place is cleared on its own page, and before anything is drawn there, exactly if the stroke has
/// not touched its tile before; no place is cleared twice.
pub proof fn law_first_touch_clears_the_place(
    active: Map<Resident, Rect>,
    batch: RoundBatchModel,
    encoding: RoundMaskEncoding,
    k: int,
    w: int,
)
    requires
        encodes(active, batch, encoding),
        0 <= k < batch.pages.len(),
        0 <= w < batch.pages[k].work@.len(),
        forall|p: int, q: int|
            #![trigger batch.pages[p].work@[q]]
            0 <= p < batch.pages.len() && 0 <= q < batch.pages[p].work@.len()
                ==> batch.pages[p].work@[q].slot.page == batch.pages[p].page,
        forall|p: int, q: int|
            #![trigger batch.pages[p], batch.pages[q]]
            0 <= p < q < batch.pages.len() ==> batch.pages[p].page != batch.pages[q].page,
    ensures
        encoding.cleared@.no_duplicates(),
        ({
            let page = encoding.pages@[k];
            let item = batch.pages[k].work@[w];
            let resident = Resident { key: item.key, slot: item.slot };
            &&& 0 <= page.clear_start <= page.clear_end <= encoding.cleared@.len()
            &&& !active.contains_key(resident) <==> exists|i: int|
                page.clear_start <= i < page.clear_end && #[trigger] encoding.cleared@[i]
                    == resident
        }),
        forall|i: int|
            #![trigger encoding.cleared@[i]]
            0 <= i < encoding.cleared@.len() ==> !active.contains_key(encoding.cleared@[i])
                && exists|p: int, q: int|
                #![trigger batch.pages[p].work@[q]]
                0 <= p < batch.pages.len() && 0 <= q < batch.pages[p].work@.len()
                    && batch.pages[p].work@[q].key == encoding.cleared@[i].key
                    && batch.pages[p].work@[q].slot == encoding.cleared@[i].slot,
{
    let pages = batch.pages;
    let page = encoding.pages@[k];
    let all = flat_work(pages);
    let before = flat_work(pages.subrange(0, k));
    let after = flat_work(pages.subrange(0, k + 1));
    assert(pages.subrange(0, k + 1).drop_last() =~= pages.subrange(0, k));
    lemma_flat_prefix(pages, k);
    lemma_flat_prefix(pages, k + 1);
    lemma_first_touched_grows(active, all, after.len() as int);
    assert(all.subrange(0, after.len() as int) == after);
    let item = pages[k].work@[w];
    let resident = Resident { key: item.key, slot: item.slot };
    lemma_first_touched(active, all, resident);
    lemma_first_touched(active, before, resident);
    lemma_first_touched(active, after, resident);
    let early = first_touched(active, before);
    let now = first_touched(active, after);
    let cleared = encoding.cleared@;
    assert(after.subrange(0, before.len() as int) =~= before);
    lemma_first_touched_grows(active, after, before.len() as int);
    if !active.contains_key(resident) {
        assert(after[before.len() + w] == item);
        assert(now.contains(resident));
        let i = choose|i: int| 0 <= i < now.len() && now[i] == resident;
        assert(cleared.subrange(0, now.len() as int)[i] == now[i]);
        if i < early.len() {
            assert(now.subrange(0, early.len() as int)[i] == early[i]);
            assert(early.contains(resident));
            let n = choose|n: int|
                0 <= n < before.len() && (#[trigger] before[n]).key == resident.key
                    && before[n].slot == resident.slot;
            let place = lemma_flat_item(pages.subrange(0, k), n);
            assert(pages.subrange(0, k)[place.0] == pages[place.0]);
            assert(pages[place.0].work@[place.1].slot.page == pages[place.0].page);
            assert(pages[k].work@[w].slot.page == pages[k].page);
            assert(pages[place.0].page != pages[k].page);
        }
        assert(cleared[i] == resident);
    }
    if exists|i: int|
        page.clear_start <= i < page.clear_end && #[trigger] encoding.cleared@[i] == resident {
        let i = choose|i: int|
            page.clear_start <= i < page.clear_end && #[trigger] encoding.cleared@[i] == resident;
        assert(cleared.contains(resident));
    }
    assert forall|i: int| #![trigger cleared[i]] 0 <= i < cleared.len() implies !active.contains_key(
        cleared[i],
    ) && exists|p: int, q: int|
        #![trigger batch.pages[p].work@[q]]
        0 <= p < batch.pages.len() && 0 <= q < batch.pages[p].work@.len()
            && batch.pages[p].work@[q].key == cleared[i].key && batch.pages[p].work@[q].slot
            == cleared[i].slot by {
        lemma_first_touched(active, all, cleared[i]);
        assert(cleared.contains(cleared[i]));
        let n = choose|n: int|
            0 <= n < all.len() && (#[trigger] all[n]).key == cleared[i].key && all[n].slot
                == cleared[i].slot;
        let place = lemma_flat_item(pages, n);
        assert(batch.pages[place.0].work@[place.1].key == cleared[i].key);
    }
}

proof fn lemma_damaged(active: Map<Resident, Rect>, batch: RoundBatchModel, n: int, resident: Resident)
    requires
        0 <= n <= batch.touched_tiles.len(),
        batch.allocations.len() == batch.touched_tiles.len(),
        forall|i: int, j: int|
            #![trigger batch.touched_tiles[i], batch.touched_tiles[j]]
            0 <= i < j < batch.touched_tiles.len() ==> batch.touched_tiles[i].key
                != batch.touched_tiles[j].key,
    ensures
        ({
            let after = damaged(active, batch, n);
            &&& forall|i: int|
                #![trigger batch.touched_tiles[i]]
                0 <= i < n && batch.touched_tiles[i].key == resident.key
                    && batch.allocations[i].slot == resident.slot ==> {
                    &&& after.contains_key(resident)
                    &&& after[resident] == if active.contains_key(resident) {
                        active[resident].union(batch.touched_tiles[i].local_damage@)
                    } else {
                        batch.touched_tiles[i].local_damage@
                    }
                }
            &&& !(exists|i: int|
                0 <= i < n && (#[trigger] batch.touched_tiles[i]).key == resident.key
                    && batch.allocations[i].slot == resident.slot) ==> {
                &&& after.contains_key(resident) == active.contains_key(resident)
                &&& active.contains_key(resident) ==> after[resident] == active[resident]
            }
        }),
    decreases n,
{
    if n > 0 {
        lemma_damaged(active, batch, n - 1, resident);
        let last = batch.touched_tiles[n - 1];
        if last.key == resident.key {
            assert forall|i: int|
                #![trigger batch.touched_tiles[i]]
                0 <= i < n - 1 implies batch.touched_tiles[i].key != resident.key by {
                assert(batch.touched_tiles[i].key != batch.touched_tiles[n - 1].key);
            }
        }
        if !(exists|i: int|
            0 <= i < n && (#[trigger] batch.touched_tiles[i]).key == resident.key
                && batch.allocations[i].slot == resident.slot) {
            assert(!(batch.touched_tiles[n - 1].key == resident.key && batch.allocations[n - 1].slot
                == resident.slot));
        }
    }
}

/// Drawing a batch adds the damage of each touched tile to what the stroke has damaged there, and
/// leaves the damage of all other tiles as it was.
pub proof fn law_damage_of_a_stroke_adds_up(
    before: RoundTargetModel,
    batch: RoundBatchModel,
    after: RoundTargetModel,
    resident: Resident,
)
    requires
        encoded_state(before, batch, after),
        batch.allocations.len() == batch.touched_tiles.len(),
        forall|i: int, j: int|
            #![trigger batch.touched_tiles[i], batch.touched_tiles[j]]
            0 <= i < j < batch.touched_tiles.len() ==> batch.touched_tiles[i].key
                != batch.touched_tiles[j].key,
    ensures
        forall|i: int|
            #![trigger batch.touched_tiles[i]]
            0 <= i < batch.touched_tiles.len() && batch.touched_tiles[i].key == resident.key
                && batch.allocations[i].slot == resident.slot ==> {
                let own = batch.touched_tiles[i].local_damage@;
                &&& after.active_tiles.contains_key(resident)
                &&& forall|x: int, y: int|
                    own.contains(x, y) || (before.active_tiles.contains_key(resident)
                        && before.active_tiles[resident].contains(x, y))
                        ==> #[trigger] after.active_tiles[resident].contains(x, y)
                &&& !before.active_tiles.contains_key(resident)
                    ==> after.active_tiles[resident] == own
                &&& before.active_tiles.contains_key(resident) ==> {
                    let was = before.active_tiles[resident];
                    let now = after.active_tiles[resident];
                    &&& now.min_x == was.min_x || now.min_x == own.min_x
                    &&& now.min_y == was.min_y || now.min_y == own.min_y
                    &&& now.max_x == was.max_x || now.max_x == own.max_x
                    &&& now.max_y == was.max_y || now.max_y == own.max_y
                }
            },
        !(exists|i: int|
            0 <= i < batch.touched_tiles.len() && (#[trigger] batch.touched_tiles[i]).key
                == resident.key && batch.allocations[i].slot == resident.slot) ==> {
            &&& after.active_tiles.contains_key(resident) == before.active_tiles.contains_key(
                resident,
            )
            &&& before.active_tiles.contains_key(resident) ==> after.active_tiles[resident]
                == before.active_tiles[resident]
        },
        after.pending,
        after.active == before.active,
        after.material == before.material,
{
    lemma_damaged(before.active_tiles, batch, batch.touched_tiles.len() as int, resident);
}

/// Touching a tile marks it and the four tiles beside it, and no other.
pub proof fn law_touch_marks_the_tile_and_its_neighbors(
    dirty: Map<TileCoord, ()>,
    coord: TileCoord,
    other: TileCoord,
)
    ensures
        damaged_around(dirty, coord).contains_key(other) <==> {
            ||| dirty.contains_key(other)
            ||| other == coord
            ||| other.y == coord.y && (other.x == coord.x + 1 || other.x == coord.x - 1)
            ||| other.x == coord.x && (other.y == coord.y + 1 || other.y == coord.y - 1)
        },
{
}

/// The tile lies one step beside the other.
pub open spec fn beside(coord: TileCoord, dx: int, dy: int, tile: TileCoord) -> bool {
    tile.x == coord.x + dx && tile.y == coord.y + dy
}

/// Where the device holds the relief of the tile one step beside, if it holds one.
pub open spec fn relief_beside(
    target: TargetModel,
    geometry: AtlasGeometry,
    places: Seq<Option<LayerTileKey>>,
    layer: LayerId,
    coord: TileCoord,
    dx: int,
    dy: int,
    found: Option<AtlasSlot>,
) -> bool {
    match found {
        Some(slot) => exists|tile: TileCoord|
            {
                &&& #[trigger] beside(coord, dx, dy, tile)
                &&& at_place(
                    geometry,
                    places,
                    LayerTileKey { layer: layer.spec_material_plane(), tile },
                    slot,
                )
                &&& target.residents.contains_key(slot)
                &&& target.residents[slot] == (LayerTileKey {
                    layer: layer.spec_material_plane(),
                    tile,
                })
            },
        None => forall|tile: TileCoord, slot: AtlasSlot|
            #![trigger beside(coord, dx, dy, tile), target.residents[slot]]
            beside(coord, dx, dy, tile) && at_place(
                geometry,
                places,
                LayerTileKey { layer: layer.spec_material_plane(), tile },
                slot,
            ) && target.residents.contains_key(slot) ==> target.residents[slot] != (LayerTileKey {
                layer: layer.spec_material_plane(),
                tile,
            }),
    }
}

/// The places say that a tile lies in a slot.
pub open spec fn at_place(
    geometry: AtlasGeometry,
    places: Seq<Option<LayerTileKey>>,
    key: LayerTileKey,
    slot: AtlasSlot,
) -> bool {
    exists|n: int| 0 <= n < places.len() && #[trigger] places[n] == Some(key) && slot
        == geometry.slot(n)
}

/// Where the stroke holds the tile one step beside, if it does.
pub open spec fn stroke_beside(
    tiles: Seq<ActiveRoundMaskTile>,
    coord: TileCoord,
    dx: int,
    dy: int,
    found: Option<AtlasSlot>,
) -> bool {
    match found {
        Some(slot) => exists|i: int|
            0 <= i < tiles.len() && beside(coord, dx, dy, (#[trigger] tiles[i]).key.tile)
                && tiles[i].slot == slot,
        None => forall|i: int|
            0 <= i < tiles.len() ==> !beside(coord, dx, dy, (#[trigger] tiles[i]).key.tile),
    }
}

pub open spec fn places_unique(places: Seq<Option<LayerTileKey>>) -> bool {
    forall|i: int, j: int|
        #![trigger places[i], places[j]]
        0 <= i < j < places.len() && places[i] is Some ==> places[i] != places[j]
}

proof fn lemma_slot_at(
    geometry: AtlasGeometry,
    places: Seq<Option<LayerTileKey>>,
    key: LayerTileKey,
)
    requires
        places_unique(places),
    ensures
        forall|slot: AtlasSlot| #[trigger] at_place(geometry, places, key, slot) <==> slot_at(
            geometry,
            places,
            key,
        ) == Some(slot),
{
    assert forall|slot: AtlasSlot| #[trigger] at_place(geometry, places, key, slot) <==> slot_at(
        geometry,
        places,
        key,
    ) == Some(slot) by {
        if at_place(geometry, places, key, slot) {
            let n = choose|n: int| 0 <= n < places.len() && #[trigger] places[n] == Some(key)
                && slot == geometry.slot(n);
            let m = slot_of_key(places, key)->0;
            assert(places[m] == Some(key));
            if m < n {
                assert(places[m] != places[n]);
            } else if n < m {
                assert(places[n] != places[m]);
            }
        }
        if slot_at(geometry, places, key) == Some(slot) {
            let m = slot_of_key(places, key)->0;
            assert(places[m] == Some(key));
        }
    }
}

proof fn lemma_relief_beside(
    target: TargetModel,
    geometry: AtlasGeometry,
    places: Seq<Option<LayerTileKey>>,
    layer: LayerId,
    coord: TileCoord,
    near: Option<TileCoord>,
    dx: int,
    dy: int,
)
    requires
        places_unique(places),
        match near {
            Some(tile) => beside(coord, dx, dy, tile),
            None => forall|tile: TileCoord| !#[trigger] beside(coord, dx, dy, tile),
        },
    ensures
        relief_beside(
            target,
            geometry,
            places,
            layer,
            coord,
            dx,
            dy,
            held_relief(target, geometry, places, layer, near),
        ),
{
    match near {
        Some(tile) => {
            let key = LayerTileKey { layer: layer.spec_material_plane(), tile };
            lemma_slot_at(geometry, places, key);
            assert forall|other: TileCoord| #[trigger] beside(coord, dx, dy, other) implies other
                == tile by {}
            match held_relief(target, geometry, places, layer, near) {
                Some(slot) => {
                    assert(at_place(geometry, places, key, slot));
                },
                None => {},
            }
        },
        None => {},
    }
}

proof fn lemma_stroke_beside(
    tiles: Seq<ActiveRoundMaskTile>,
    coord: TileCoord,
    near: Option<TileCoord>,
    dx: int,
    dy: int,
)
    requires
        match near {
            Some(tile) => beside(coord, dx, dy, tile),
            None => forall|tile: TileCoord| !#[trigger] beside(coord, dx, dy, tile),
        },
    ensures
        stroke_beside(tiles, coord, dx, dy, stroke_slot(tiles, near)),
    decreases tiles.len(),
{
    if near is Some && tiles.len() > 0 {
        let rest = tiles.drop_last();
        lemma_stroke_beside(rest, coord, near, dx, dy);
        let last = tiles.len() - 1;
        match stroke_slot(tiles, near) {
            Some(slot) => {
                if tiles.last().key.tile == near->0 {
                    assert(beside(coord, dx, dy, tiles[last].key.tile));
                } else {
                    let i = choose|i: int|
                        0 <= i < rest.len() && beside(
                            coord,
                            dx,
                            dy,
                            (#[trigger] rest[i]).key.tile,
                        ) && rest[i].slot == slot;
                    assert(tiles[i] == rest[i]);
                }
            },
            None => {
                assert forall|i: int| 0 <= i < tiles.len() implies !beside(
                    coord,
                    dx,
                    dy,
                    (#[trigger] tiles[i]).key.tile,
                ) by {
                    if i < last {
                        assert(tiles[i] == rest[i]);
                    } else if beside(coord, dx, dy, tiles[i].key.tile) {
                        assert(tiles[i].key.tile == near->0);
                    }
                }
            },
        }
    }
}

/// The tile that a dispatch computes is given the relief and the stroke of the tile itself and of
/// the tiles to its left and right, above and below, as far as the device and the stroke hold them.
pub proof fn law_dispatch_sees_its_neighbors(
    target: TargetModel,
    geometry: AtlasGeometry,
    places: Seq<Option<LayerTileKey>>,
    tiles: Seq<ActiveRoundMaskTile>,
    tile: ActiveRoundMaskTile,
)
    requires
        places_unique(places),
    ensures
        ({
            let dispatch = dispatch_of(target, geometry, places, tiles, tile);
            let layer = tile.key.layer;
            let at = tile.key.tile;
            let relief = dispatch.surface;
            let mask = dispatch.mask;
            &&& dispatch.tile == tile
            &&& relief_beside(target, geometry, places, layer, at, 0, 0, relief.center)
            &&& relief_beside(target, geometry, places, layer, at, -1, 0, relief.left)
            &&& relief_beside(target, geometry, places, layer, at, 1, 0, relief.right)
            &&& relief_beside(target, geometry, places, layer, at, 0, -1, relief.above)
            &&& relief_beside(target, geometry, places, layer, at, 0, 1, relief.below)
            &&& stroke_beside(tiles, at, 0, 0, mask.center)
            &&& stroke_beside(tiles, at, -1, 0, mask.left)
            &&& stroke_beside(tiles, at, 1, 0, mask.right)
            &&& stroke_beside(tiles, at, 0, -1, mask.above)
            &&& stroke_beside(tiles, at, 0, 1, mask.below)
            &&& dispatch.initialized == (target.residents.contains_key(tile.slot)
                && target.residents[tile.slot] == tile.key)
            &&& forall|slot: AtlasSlot| #[trigger]
                at_place(
                    geometry,
                    places,
                    LayerTileKey { layer: layer.spec_material_plane(), tile: at },
                    slot,
                ) <==> dispatch.relief == Some(slot)
        }),
{
    let layer = tile.key.layer;
    let at = tile.key.tile;
    let near = around(at);
    lemma_relief_beside(target, geometry, places, layer, at, near.center, 0, 0);
    lemma_relief_beside(target, geometry, places, layer, at, near.left, -1, 0);
    lemma_relief_beside(target, geometry, places, layer, at, near.right, 1, 0);
    lemma_relief_beside(target, geometry, places, layer, at, near.above, 0, -1);
    lemma_relief_beside(target, geometry, places, layer, at, near.below, 0, 1);
    lemma_stroke_beside(tiles, at, near.center, 0, 0);
    lemma_stroke_beside(tiles, at, near.left, -1, 0);
    lemma_stroke_beside(tiles, at, near.right, 1, 0);
    lemma_stroke_beside(tiles, at, near.above, 0, -1);
    lemma_stroke_beside(tiles, at, near.below, 0, 1);
    lemma_slot_at(geometry, places, LayerTileKey { layer: layer.spec_material_plane(), tile: at });
}

proof fn lemma_dispatched(
    target: TargetModel,
    geometry: AtlasGeometry,
    places: Seq<Option<LayerTileKey>>,
    dirty: Map<TileCoord, ()>,
    tiles: Seq<ActiveRoundMaskTile>,
    n: int,
)
    requires
        0 <= n <= tiles.len(),
    ensures
        dispatches_of(target, geometry, places, dirty, tiles, n).map_values(
            |dispatch: SurfaceDispatch| dispatch.tile,
        ) == tiles.subrange(0, n).filter(
            |tile: ActiveRoundMaskTile| dirty.contains_key(tile.key.tile),
        ),
        forall|d: int|
            #![trigger dispatches_of(target, geometry, places, dirty, tiles, n)[d]]
            0 <= d < dispatches_of(target, geometry, places, dirty, tiles, n).len()
                ==> dispatches_of(target, geometry, places, dirty, tiles, n)[d] == dispatch_of(
                target,
                geometry,
                places,
                tiles,
                dispatches_of(target, geometry, places, dirty, tiles, n)[d].tile,
            ),
    decreases n,
{
    reveal(Seq::filter);
    let own = |dispatch: SurfaceDispatch| dispatch.tile;
    let marked = |tile: ActiveRoundMaskTile| dirty.contains_key(tile.key.tile);
    let all = dispatches_of(target, geometry, places, dirty, tiles, n);
    if n > 0 {
        lemma_dispatched(target, geometry, places, dirty, tiles, n - 1);
        let rest = dispatches_of(target, geometry, places, dirty, tiles, n - 1);
        let prefix = tiles.subrange(0, n);
        assert(prefix.drop_last() =~= tiles.subrange(0, n - 1));
        assert(prefix.last() == tiles[n - 1]);
        if marked(tiles[n - 1]) {
            assert(all == rest.push(dispatch_of(target, geometry, places, tiles, tiles[n - 1])));
            assert(all.map_values(own) =~= rest.map_values(own).push(tiles[n - 1]));
        }
        assert(all.map_values(own) =~= prefix.filter(marked));
    } else {
        assert(all.map_values(own) =~= tiles.subrange(0, 0).filter(marked));
    }
}

/// Bringing a surface up to date computes exactly the marked tiles of the stroke, each once and in
/// their order, each as its surroundings stand; then nothing is marked, and every page that the tiles
/// are copied from is there.
pub proof fn law_refresh_computes_the_marked_tiles(
    before: SurfaceModel,
    geometry: AtlasGeometry,
    places: Seq<Option<LayerTileKey>>,
    target: TargetModel,
    mask: RoundTargetModel,
    operation: PaintOperation,
    loaded: bool,
    refresh: SurfaceRefresh,
    after: SurfaceModel,
)
    requires
        refreshed(before, geometry, places, target, mask, operation, loaded, refresh, after),
    ensures
        refresh.dispatches@.map_values(|dispatch: SurfaceDispatch| dispatch.tile)
            == after.tiles.filter(
            |tile: ActiveRoundMaskTile| before.dirty.contains_key(tile.key.tile),
        ),
        forall|d: int|
            #![trigger refresh.dispatches@[d]]
            0 <= d < refresh.dispatches@.len() ==> refresh.dispatches@[d] == dispatch_of(
                target,
                geometry,
                places,
                after.tiles,
                refresh.dispatches@[d].tile,
            ),
        forall|coord: TileCoord| !#[trigger] after.dirty.contains_key(coord),
        forall|i: int|
            #![trigger after.tiles[i]]
            0 <= i < after.tiles.len() ==> after.pages.contains_key(after.tiles[i].slot.page) && (
            relief_slot(geometry, places, after.tiles[i].key) matches Some(slot)
                ==> after.pages.contains_key(slot.page)),
        forall|page: AtlasPageId| #[trigger]
            before.pages.contains_key(page) ==> after.pages.contains_key(page),
{
    lemma_dispatched(
        target,
        geometry,
        places,
        before.dirty,
        after.tiles,
        after.tiles.len() as int,
    );
    assert(after.tiles.subrange(0, after.tiles.len() as int) =~= after.tiles);
    lemma_opened(before.pages, refresh.opened@);
    assert forall|i: int| #![trigger after.tiles[i]] 0 <= i < after.tiles.len() implies after.pages.contains_key(
        after.tiles[i].slot.page,
    ) && (relief_slot(geometry, places, after.tiles[i].key) matches Some(slot)
        ==> after.pages.contains_key(slot.page)) by {
        let tile = after.tiles[i];
        assert(tile_needs_page(geometry, places, after.tiles[i], tile.slot.page));
        assert(refresh.opened@.contains(tile.slot.page) || before.pages.contains_key(
            tile.slot.page,
        ));
        if let Some(slot) = relief_slot(geometry, places, tile.key) {
            assert(tile_needs_page(geometry, places, after.tiles[i], slot.page));
            assert(refresh.opened@.contains(slot.page) || before.pages.contains_key(slot.page));
        }
    }
}

proof fn lemma_opened(pages: Map<AtlasPageId, ()>, opened: Seq<AtlasPageId>)
    ensures
        forall|page: AtlasPageId| #[trigger]
            pages_opened(pages, opened).contains_key(page) <==> pages.contains_key(page)
                || opened.contains(page),
    decreases opened.len(),
{
    if opened.len() > 0 {
        let rest = opened.drop_last();
        lemma_opened(pages, rest);
        assert forall|page: AtlasPageId| opened.contains(page) <==> #[trigger] rest.contains(page)
            || page == opened.last() by {
            if opened.contains(page) {
                let i = choose|i: int| 0 <= i < opened.len() && opened[i] == page;
                if i < rest.len() {
                    assert(rest[i] == page);
                }
            }
            if rest.contains(page) {
                let i = choose|i: int| 0 <= i < rest.len() && rest[i] == page;
                assert(opened[i] == page);
            }
            if page == opened.last() {
                assert(opened[opened.len() - 1] == page);
            }
        }
        assert forall|page: AtlasPageId| #[trigger]
            pages_opened(pages, opened).contains_key(page) == (pages.contains_key(page)
                || opened.contains(page)) by {
            assert(opened.contains(page) <==> rest.contains(page) || page == opened.last());
            assert(pages_opened(pages, rest).contains_key(page) == (pages.contains_key(page)
                || rest.contains(page)));
        }
    }
}

/// The copies of the tile with one number stand somewhere among all copies.
pub open spec fn copied(
    copies: Seq<MaterialCopy>,
    key: LayerTileKey,
    slot: AtlasSlot,
    tile: ActiveRoundMaskTile,
) -> bool {
    exists|c: int|
        {
            &&& 0 <= c < copies.len()
            &&& (#[trigger] copies[c]).destination.key == key
            &&& copies[c].destination.slot == slot
            &&& copies[c].destination.local_damage == tile.local_damage
            &&& copies[c].source_page == slot.page
            &&& copies[c].source_origin[0] == slot.origin_x
            &&& copies[c].source_origin[1] == slot.origin_y
        }
}

/// A commit copies the color of every tile of the surface, and its relief where it has one, each
/// from and to its own place; nothing else is copied.
pub proof fn law_surface_copies_color_and_relief(
    geometry: AtlasGeometry,
    places: Seq<Option<LayerTileKey>>,
    tiles: Seq<ActiveRoundMaskTile>,
)
    requires
        places_unique(places),
    ensures
        forall|t: int|
            #![trigger tiles[t]]
            0 <= t < tiles.len() ==> {
                let relief = LayerTileKey {
                    layer: tiles[t].key.layer.spec_material_plane(),
                    tile: tiles[t].key.tile,
                };
                &&& copied(
                    all_copies(geometry, places, tiles),
                    tiles[t].key,
                    tiles[t].slot,
                    tiles[t],
                )
                &&& forall|slot: AtlasSlot| #[trigger]
                    at_place(geometry, places, relief, slot) ==> copied(
                        all_copies(geometry, places, tiles),
                        relief,
                        slot,
                        tiles[t],
                    )
            },
        forall|c: int|
            #![trigger all_copies(geometry, places, tiles)[c]]
            0 <= c < all_copies(geometry, places, tiles).len() ==> exists|t: int|
                {
                    let copy = all_copies(geometry, places, tiles)[c];
                    let relief = LayerTileKey {
                        layer: tiles[t].key.layer.spec_material_plane(),
                        tile: tiles[t].key.tile,
                    };
                    &&& 0 <= t < tiles.len()
                    &&& copy.destination.local_damage == (#[trigger] tiles[t]).local_damage
                    &&& copy.source_page == copy.destination.slot.page
                    &&& copy.source_origin[0] == copy.destination.slot.origin_x
                    &&& copy.source_origin[1] == copy.destination.slot.origin_y
                    &&& (copy.destination.key == tiles[t].key && copy.destination.slot
                        == tiles[t].slot) || (copy.destination.key == relief && at_place(
                        geometry,
                        places,
                        relief,
                        copy.destination.slot,
                    ))
                },
    decreases tiles.len(),
{
    if tiles.len() > 0 {
        let rest = tiles.drop_last();
        let last = tiles.len() - 1;
        law_surface_copies_color_and_relief(geometry, places, rest);
        let head = all_copies(geometry, places, rest);
        let own = copies_of(geometry, places, tiles.last());
        let all = all_copies(geometry, places, tiles);
        assert(all == head + own);
        assert forall|t: int| #![trigger tiles[t]] 0 <= t < tiles.len() implies {
            let relief = LayerTileKey {
                layer: tiles[t].key.layer.spec_material_plane(),
                tile: tiles[t].key.tile,
            };
            &&& copied(all, tiles[t].key, tiles[t].slot, tiles[t])
            &&& forall|slot: AtlasSlot| #[trigger]
                at_place(geometry, places, relief, slot) ==> copied(all, relief, slot, tiles[t])
        } by {
            let relief = LayerTileKey {
                layer: tiles[t].key.layer.spec_material_plane(),
                tile: tiles[t].key.tile,
            };
            if t < last {
                assert(rest[t] == tiles[t]);
                lemma_copied_stays(head, own, tiles[t].key, tiles[t].slot, tiles[t]);
                assert forall|slot: AtlasSlot| #[trigger]
                    at_place(geometry, places, relief, slot) implies copied(
                    all,
                    relief,
                    slot,
                    tiles[t],
                ) by {
                    lemma_copied_stays(head, own, relief, slot, tiles[t]);
                }
            } else {
                assert(all[head.len() as int] == own[0]);
                lemma_slot_at(geometry, places, relief);
                assert forall|slot: AtlasSlot| #[trigger]
                    at_place(geometry, places, relief, slot) implies copied(
                    all,
                    relief,
                    slot,
                    tiles[t],
                ) by {
                    assert(all[head.len() as int + 1] == own[1]);
                }
            }
        }
        assert forall|c: int| #![trigger all[c]] 0 <= c < all.len() implies exists|t: int|
            {
                let copy = all[c];
                let relief = LayerTileKey {
                    layer: tiles[t].key.layer.spec_material_plane(),
                    tile: tiles[t].key.tile,
                };
                &&& 0 <= t < tiles.len()
                &&& copy.destination.local_damage == (#[trigger] tiles[t]).local_damage
                &&& copy.source_page == copy.destination.slot.page
                &&& copy.source_origin[0] == copy.destination.slot.origin_x
                &&& copy.source_origin[1] == copy.destination.slot.origin_y
                &&& (copy.destination.key == tiles[t].key && copy.destination.slot
                    == tiles[t].slot) || (copy.destination.key == relief && at_place(
                    geometry,
                    places,
                    relief,
                    copy.destination.slot,
                ))
            } by {
            if c < head.len() {
                assert(all[c] == head[c]);
                let t = choose|t: int|
                    {
                        let copy = head[c];
                        let relief = LayerTileKey {
                            layer: rest[t].key.layer.spec_material_plane(),
                            tile: rest[t].key.tile,
                        };
                        &&& 0 <= t < rest.len()
                        &&& copy.destination.local_damage == (#[trigger] rest[t]).local_damage
                        &&& copy.source_page == copy.destination.slot.page
                        &&& copy.source_origin[0] == copy.destination.slot.origin_x
                        &&& copy.source_origin[1] == copy.destination.slot.origin_y
                        &&& (copy.destination.key == rest[t].key && copy.destination.slot
                            == rest[t].slot) || (copy.destination.key == relief && at_place(
                            geometry,
                            places,
                            relief,
                            copy.destination.slot,
                        ))
                    };
                assert(tiles[t] == rest[t]);
            } else {
                let relief = LayerTileKey {
                    layer: tiles[last].key.layer.spec_material_plane(),
                    tile: tiles[last].key.tile,
                };
                lemma_slot_at(geometry, places, relief);
                assert(all[c] == own[c - head.len()]);
                assert(tiles[last] == tiles.last());
                assert(all[c].destination.local_damage == tiles[last].local_damage);
            }
        }
    }
}

proof fn lemma_copied_stays(
    head: Seq<MaterialCopy>,
    own: Seq<MaterialCopy>,
    key: LayerTileKey,
    slot: AtlasSlot,
    tile: ActiveRoundMaskTile,
)
    requires
        copied(head, key, slot, tile),
    ensures
        copied(head + own, key, slot, tile),
{
    let c = choose|c: int|
        {
            &&& 0 <= c < head.len()
            &&& (#[trigger] head[c]).destination.key == key
            &&& head[c].destination.slot == slot
            &&& head[c].destination.local_damage == tile.local_damage
            &&& head[c].source_page == slot.page
            &&& head[c].source_origin[0] == slot.origin_x
            &&& head[c].source_origin[1] == slot.origin_y
        };
    assert((head + own)[c] == head[c]);
}

} // verus!
