//! Which tiles have places in the atlas, and where the places lie.

use crate::gpu_atlas::{
    allocate_all, allocate_one, first_free, lemma_capacity_bounds, lemma_first_free_is_free,
    lemma_slot_origin, page_batches, slot_of_key, work_on_page, AtlasAllocation, AtlasGeometry,
    AtlasPageBatch, LayerTileKey, ResidentWork,
};
use vstd::prelude::*;

verus! {

/// No tile has two places.
pub open spec fn places_are_distinct(places: Seq<Option<LayerTileKey>>) -> bool {
    forall|i: int, j: int|
        #![trigger places[i], places[j]]
        0 <= i < j < places.len() && places[i] is Some ==> places[i] != places[j]
}

/// Every place that was taken keeps its tile.
pub open spec fn taken_places_stay(
    places: Seq<Option<LayerTileKey>>,
    after: Seq<Option<LayerTileKey>>,
) -> bool {
    &&& places.len() <= after.len()
    &&& forall|p: int|
        #![trigger after[p]]
        0 <= p < places.len() && places[p] is Some ==> after[p] == places[p]
}

/// Every tile that got a place was asked for.
pub open spec fn new_places_were_asked_for(
    places: Seq<Option<LayerTileKey>>,
    keys: Seq<LayerTileKey>,
    after: Seq<Option<LayerTileKey>>,
) -> bool {
    forall|p: int|
        #![trigger after[p]]
        0 <= p < after.len() && after[p] is Some ==> (p < places.len() && places[p] == after[p])
            || keys.contains(after[p]->0)
}

/// The answer names the place where the tile lies afterwards.
pub open spec fn answer_names_place(
    geometry: AtlasGeometry,
    after: Seq<Option<LayerTileKey>>,
    allocation: AtlasAllocation,
) -> bool {
    exists|p: int|
        #![trigger after[p]]
        0 <= p < after.len() && after[p] == Some(allocation.key) && allocation.slot
            == geometry.slot(p)
}

/// Whether a tile has a place.
pub open spec fn has_place(places: Seq<Option<LayerTileKey>>, key: LayerTileKey) -> bool {
    exists|p: int| 0 <= p < places.len() && #[trigger] places[p] == Some(key)
}

proof fn lemma_before_first_free(places: Seq<Option<LayerTileKey>>)
    ensures
        forall|q: int| 0 <= q < first_free(places) ==> #[trigger] places[q] is Some,
    decreases places.len(),
{
    lemma_first_free_is_free(places);
    if places.len() > 0 && places[0] is Some {
        let rest = places.subrange(1, places.len() as int);
        lemma_before_first_free(rest);
        assert forall|q: int| 0 <= q < first_free(places) implies #[trigger] places[q] is Some by {
            if q > 0 {
                assert(rest[q - 1] == places[q]);
            }
        }
    }
}

proof fn lemma_one(
    geometry: AtlasGeometry,
    places: Seq<Option<LayerTileKey>>,
    key: LayerTileKey,
    after: Seq<Option<LayerTileKey>>,
    allocation: AtlasAllocation,
)
    requires
        geometry.valid(),
        places_are_distinct(places),
        allocate_one(geometry, places, key) == Some((after, allocation)),
    ensures
        allocation.key == key,
        allocation.newly_allocated == !has_place(places, key),
        places_are_distinct(after),
        taken_places_stay(places, after),
        forall|p: int|
            #![trigger after[p]]
            0 <= p < after.len() && after[p] is Some ==> (p < places.len() && places[p] == after[p])
                || after[p] == Some(key),
        answer_names_place(geometry, after, allocation),
        !allocation.newly_allocated ==> after == places,
        allocation.newly_allocated ==> exists|p: int|
            #![trigger geometry.slot(p)]
            allocation.slot == geometry.slot(p) && first_place_taken(places, after, p, key),
{
    lemma_capacity_bounds(geometry);
    lemma_first_free_is_free(places);
    lemma_before_first_free(places);
    match slot_of_key(places, key) {
        Some(index) => {
            assert(after[index] == Some(key));
        },
        None => {
            let p = first_free(places);
            assert(after[p] == Some(key));
            assert forall|q: int| 0 <= q < places.len() implies #[trigger] places[q] != Some(
                key,
            ) by {}
            assert forall|i: int, j: int|
                #![trigger after[i], after[j]]
                0 <= i < j < after.len() && after[i] is Some implies after[i] != after[j] by {
                if i != p && j != p {
                    if j < places.len() {
                        assert(places[i] == after[i] && places[j] == after[j]);
                    }
                }
            }
            assert(first_place_taken(places, after, p, key));
        },
    }
}

/// The tile lies at the first place that was free: before it every place is taken, and it held
/// nothing.
pub open spec fn first_place_taken(
    places: Seq<Option<LayerTileKey>>,
    after: Seq<Option<LayerTileKey>>,
    p: int,
    key: LayerTileKey,
) -> bool {
    &&& 0 <= p < after.len()
    &&& after[p] == Some(key)
    &&& p < places.len() ==> places[p] is None
    &&& p <= places.len()
    &&& forall|q: int| 0 <= q < p ==> #[trigger] places[q] is Some
}

/// A tile gets the first free place, unless it has one; no other place changes. It is refused only
/// where every place of the atlas is taken.
pub proof fn law_tile_gets_the_first_free_place(
    geometry: AtlasGeometry,
    places: Seq<Option<LayerTileKey>>,
    key: LayerTileKey,
)
    requires
        geometry.valid(),
        places_are_distinct(places),
        places.len() <= geometry.capacity(),
    ensures
        match allocate_one(geometry, places, key) {
            Some((after, allocation)) => {
                &&& allocation.key == key
                &&& allocation.newly_allocated == !has_place(places, key)
                &&& taken_places_stay(places, after)
                &&& answer_names_place(geometry, after, allocation)
                &&& !allocation.newly_allocated ==> after == places
                &&& allocation.newly_allocated ==> exists|p: int|
                    #![trigger geometry.slot(p)]
                    allocation.slot == geometry.slot(p) && first_place_taken(places, after, p, key)
            },
            None => {
                &&& !has_place(places, key)
                &&& places.len() == geometry.capacity()
                &&& forall|q: int| 0 <= q < places.len() ==> #[trigger] places[q] is Some
            },
        },
{
    lemma_before_first_free(places);
    lemma_first_free_is_free(places);
    match allocate_one(geometry, places, key) {
        Some((after, allocation)) => {
            lemma_one(geometry, places, key, after, allocation);
        },
        None => {},
    }
}

/// After a batch every tile asked for has one place, which its answer names. Tiles that had places
/// keep them, no other tile gets one, and an answer says "new" just for the first request of a tile
/// that had no place.
pub proof fn law_batch_gives_every_tile_one_place(
    geometry: AtlasGeometry,
    places: Seq<Option<LayerTileKey>>,
    keys: Seq<LayerTileKey>,
    after: Seq<Option<LayerTileKey>>,
    allocations: Seq<AtlasAllocation>,
)
    requires
        geometry.valid(),
        places_are_distinct(places),
        allocate_all(geometry, places, keys) == Some((after, allocations)),
    ensures
        places_are_distinct(after),
        taken_places_stay(places, after),
        new_places_were_asked_for(places, keys, after),
        allocations.len() == keys.len(),
        forall|i: int|
            #![trigger allocations[i]]
            0 <= i < keys.len() ==> {
                &&& allocations[i].key == keys[i]
                &&& answer_names_place(geometry, after, allocations[i])
                &&& allocations[i].newly_allocated <==> !has_place(places, keys[i])
                    && !keys.subrange(0, i).contains(keys[i])
            },
    decreases keys.len(),
{
    if keys.len() > 0 {
        let rest = keys.drop_last();
        let key = keys.last();
        let (middle, earlier) = allocate_all(geometry, places, rest)->0;
        law_batch_gives_every_tile_one_place(geometry, places, rest, middle, earlier);
        let (last, allocation) = allocate_one(geometry, middle, key)->0;
        assert(last == after && allocations == earlier.push(allocation));
        lemma_one(geometry, middle, key, after, allocation);
        assert(taken_places_stay(places, after)) by {
            assert forall|p: int|
                #![trigger after[p]]
                0 <= p < places.len() && places[p] is Some implies after[p] == places[p] by {
                assert(middle[p] == places[p]);
            }
        }
        assert(new_places_were_asked_for(places, keys, after)) by {
            assert forall|p: int|
                #![trigger after[p]]
                0 <= p < after.len() && after[p] is Some implies (p < places.len() && places[p]
                == after[p]) || keys.contains(after[p]->0) by {
                assert(keys[keys.len() - 1] == key);
                if p < middle.len() && middle[p] == after[p] {
                    if rest.contains(after[p]->0) {
                        let i = choose|i: int| 0 <= i < rest.len() && rest[i] == after[p]->0;
                        assert(keys[i] == after[p]->0);
                    }
                }
            }
        }
        assert(has_place(middle, key) <==> has_place(places, key) || rest.contains(key)) by {
            if has_place(middle, key) {
                let p = choose|p: int| 0 <= p < middle.len() && #[trigger] middle[p] == Some(key);
                if p < places.len() && places[p] == middle[p] {
                    assert(places[p] == Some(key));
                }
            }
            if has_place(places, key) {
                let p = choose|p: int| 0 <= p < places.len() && #[trigger] places[p] == Some(key);
                assert(middle[p] == Some(key));
            }
            if rest.contains(key) {
                let i = choose|i: int| 0 <= i < rest.len() && rest[i] == key;
                assert(answer_names_place(geometry, middle, earlier[i]));
                let p = choose|p: int|
                    #![trigger middle[p]]
                    0 <= p < middle.len() && middle[p] == Some(earlier[i].key) && earlier[i].slot
                        == geometry.slot(p);
                assert(middle[p] == Some(key));
            }
        }
        assert forall|i: int| #![trigger allocations[i]] 0 <= i < keys.len() implies {
            &&& allocations[i].key == keys[i]
            &&& answer_names_place(geometry, after, allocations[i])
            &&& allocations[i].newly_allocated <==> !has_place(places, keys[i]) && !keys.subrange(
                0,
                i,
            ).contains(keys[i])
        } by {
            if i < rest.len() {
                assert(allocations[i] == earlier[i]);
                assert(rest[i] == keys[i]);
                assert(rest.subrange(0, i) =~= keys.subrange(0, i));
                assert(answer_names_place(geometry, middle, earlier[i]));
                let p = choose|p: int|
                    #![trigger middle[p]]
                    0 <= p < middle.len() && middle[p] == Some(earlier[i].key) && earlier[i].slot
                        == geometry.slot(p);
                assert(after[p] == middle[p]);
            } else {
                assert(keys.subrange(0, i) =~= rest);
            }
        }
    }
}

/// The places of one page are squares of the tile's size, in rows and columns from the corner of the
/// page: each lies inside the page, at a whole number of tiles, and two of them share no pixel.
pub proof fn law_places_do_not_overlap(
    geometry: AtlasGeometry,
    first: int,
    second: int,
    x: int,
    y: int,
)
    requires
        geometry.valid(),
        0 <= first < geometry.capacity(),
        0 <= second < geometry.capacity(),
        geometry.slot(first).page == geometry.slot(second).page,
        geometry.slot(first).origin_x <= x < geometry.slot(first).origin_x + geometry.tile_size,
        geometry.slot(first).origin_y <= y < geometry.slot(first).origin_y + geometry.tile_size,
        geometry.slot(second).origin_x <= x < geometry.slot(second).origin_x + geometry.tile_size,
        geometry.slot(second).origin_y <= y < geometry.slot(second).origin_y + geometry.tile_size,
    ensures
        first == second,
        0 <= x < geometry.page_size,
        0 <= y < geometry.page_size,
        geometry.slot(first).page.0 < geometry.max_pages,
{
    lemma_slot_origin(geometry, first);
    lemma_slot_origin(geometry, second);
    lemma_capacity_bounds(geometry);
    let per_page = geometry.slots_per_page();
    let columns = geometry.columns();
    let tile = geometry.tile_size;
    vstd::arithmetic::div_mod::lemma_fundamental_div_mod(first, per_page);
    vstd::arithmetic::div_mod::lemma_fundamental_div_mod(second, per_page);
    let a = first % per_page;
    let b = second % per_page;
    vstd::arithmetic::div_mod::lemma_fundamental_div_mod(a, columns);
    vstd::arithmetic::div_mod::lemma_fundamental_div_mod(b, columns);
    lemma_same_step(a % columns, b % columns, tile, x);
    lemma_same_step(a / columns, b / columns, tile, y);
}

proof fn lemma_same_step(a: int, b: int, step: int, x: int)
    requires
        step > 0,
        a * step <= x < a * step + step,
        b * step <= x < b * step + step,
    ensures
        a == b,
{
    assert(a == b) by (nonlinear_arith)
        requires
            step > 0,
            a * step <= x < a * step + step,
            b * step <= x < b * step + step,
    ;
}

/// The pages of a batch hold each piece of work just once, on the page of its place and in the order
/// in which it came; the pages come in order.
pub proof fn law_pages_share_out_the_work<T>(
    work: Seq<ResidentWork<T>>,
    pages: Seq<AtlasPageBatch<T>>,
    page: int,
)
    requires
        page_batches(work, pages),
        0 <= page < pages.len(),
    ensures
        pages[page].work@ == work.filter(|one: ResidentWork<T>| one.slot.page == pages[page].page),
        pages[page].work@.len() > 0,
        forall|k: int|
            #![trigger work[k]]
            0 <= k < work.len() ==> exists|i: int|
                0 <= i < pages.len() && (#[trigger] pages[i]).page == work[k].slot.page,
        forall|i: int| 0 <= i < page ==> (#[trigger] pages[i]).page.0 < pages[page].page.0,
{
    lemma_filtered(work, pages[page].page);
    assert(pages[page].work@ == work_on_page(work, pages[page].page));
}

proof fn lemma_filtered<T>(work: Seq<ResidentWork<T>>, page: crate::gpu_atlas::AtlasPageId)
    ensures
        work_on_page(work, page) == work.filter(|one: ResidentWork<T>| one.slot.page == page),
    decreases work.len(),
{
    reveal(Seq::filter);
    if work.len() > 0 {
        lemma_filtered(work.drop_last(), page);
    }
}

} // verus!
