//! How whole layers come to the device: copied from another layer, or brought from main memory.

use crate::document::{DocumentModel, LayerId};
use crate::document_metadata::EditModel;
use crate::gpu_atlas::{
    allocate_all, first_free, law_different_places_do_not_share_a_slot, lemma_capacity_bounds,
    lemma_first_free_is_free, lemma_room_for_page, slot_of_key, AtlasAllocation, AtlasGeometry,
    LayerTileKey,
};
use crate::gpu_atlas_laws::{
    answer_names_place, law_batch_gives_every_tile_one_place, places_are_distinct,
};
use crate::gpu_document_target::TargetModel;
use crate::gpu_layer_recovery::GpuExactLayerRecoveryCommand;
use crate::gpu_layer_residents::{
    clone_destinations, installed, layer_residents, upload_destinations, LayerResident,
};
use crate::gpu_resident_document::{GpuResidentDocumentLimits, ResidentModel};
use crate::gpu_resident_layers::{
    allocated, bootstrap_reported, clone_reported, clones_between, drawn_residents, import_reported,
    joined_keys, joined_tiles, keys_on, layers_listed, resident_clash, residents_in_order,
    tile_keys, GpuResidentDocumentBootstrap, GpuResidentLayerCloneCommit,
    GpuResidentLayerImportCommit,
};
use crate::gpu_resident_metadata::GpuResidentMetadataEditFailure;
use crate::keyed_map::{entries_map, value_of};
use crate::ordering::lemma_sorted_contains;
use crate::raster::{LinearRgba, TileCoord};
use vstd::prelude::*;

verus! {

/// An atlas holds whole pages, no more than it has room for, and no tile twice.
pub open spec fn atlas_sound(geometry: AtlasGeometry, places: Seq<Option<LayerTileKey>>) -> bool {
    &&& geometry.valid()
    &&& places_are_distinct(places)
    &&& places.len() as int % geometry.slots_per_page() == 0
    &&& places.len() <= geometry.capacity()
}

proof fn lemma_room(
    geometry: AtlasGeometry,
    places: Seq<Option<LayerTileKey>>,
    keys: Seq<LayerTileKey>,
    after: Seq<Option<LayerTileKey>>,
    allocations: Seq<AtlasAllocation>,
)
    requires
        atlas_sound(geometry, places),
        allocate_all(geometry, places, keys) == Some((after, allocations)),
    ensures
        after.len() as int % geometry.slots_per_page() == 0,
        after.len() <= geometry.capacity(),
    decreases keys.len(),
{
    if keys.len() > 0 {
        let (middle, earlier) = allocate_all(geometry, places, keys.drop_last())->0;
        lemma_room(geometry, places, keys.drop_last(), middle, earlier);
        lemma_capacity_bounds(geometry);
        lemma_first_free_is_free(middle);
        if slot_of_key(middle, keys.last()) is None && first_free(middle) == middle.len() {
            lemma_room_for_page(geometry, middle.len() as int);
            vstd::arithmetic::div_mod::lemma_mod_add_multiples_vanish(
                middle.len() as int,
                geometry.slots_per_page(),
            );
        }
    }
}

proof fn lemma_installed(target: TargetModel, tiles: Seq<LayerResident>, i: int)
    requires
        0 <= i < tiles.len(),
        forall|a: int, b: int|
            #![trigger tiles[a], tiles[b]]
            0 <= a < tiles.len() && 0 <= b < tiles.len() && tiles[a].slot == tiles[b].slot
                ==> tiles[a].key == tiles[b].key,
    ensures
        installed(target, tiles).residents.contains_key(tiles[i].slot),
        installed(target, tiles).residents[tiles[i].slot] == tiles[i].key,
    decreases tiles.len(),
{
    let rest = tiles.drop_last();
    assert(forall|a: int| #![trigger rest[a]] 0 <= a < rest.len() ==> rest[a] == tiles[a]);
    assert(tiles[tiles.len() - 1] == tiles.last());
    if i < rest.len() {
        assert(rest[i] == tiles[i]);
        lemma_installed(target, rest, i);
    }
}

/// Answers that name the same place are answers for the same tile.
proof fn lemma_places_name_tiles(
    geometry: AtlasGeometry,
    places: Seq<Option<LayerTileKey>>,
    keys: Seq<LayerTileKey>,
    after: Seq<Option<LayerTileKey>>,
    allocations: Seq<AtlasAllocation>,
)
    requires
        atlas_sound(geometry, places),
        allocate_all(geometry, places, keys) == Some((after, allocations)),
    ensures
        allocations.len() == keys.len(),
        forall|a: int| 0 <= a < keys.len() ==> (#[trigger] allocations[a]).key == keys[a],
        forall|a: int, b: int|
            #![trigger allocations[a], allocations[b]]
            0 <= a < allocations.len() && 0 <= b < allocations.len() && allocations[a].slot
                == allocations[b].slot ==> allocations[a].key == allocations[b].key,
{
    law_batch_gives_every_tile_one_place(geometry, places, keys, after, allocations);
    lemma_room(geometry, places, keys, after, allocations);
    assert forall|a: int, b: int|
        #![trigger allocations[a], allocations[b]]
        0 <= a < allocations.len() && 0 <= b < allocations.len() && allocations[a].slot
            == allocations[b].slot implies allocations[a].key == allocations[b].key by {
        assert(answer_names_place(geometry, after, allocations[a]));
        assert(answer_names_place(geometry, after, allocations[b]));
        let p = choose|p: int|
            #![trigger after[p]]
            0 <= p < after.len() && after[p] == Some(allocations[a].key) && allocations[a].slot
                == geometry.slot(p);
        let q = choose|q: int|
            #![trigger after[q]]
            0 <= q < after.len() && after[q] == Some(allocations[b].key) && allocations[b].slot
                == geometry.slot(q);
        if p != q {
            law_different_places_do_not_share_a_slot(geometry, p, q);
        }
    }
}

proof fn lemma_listed(
    geometry: AtlasGeometry,
    places: Seq<Option<LayerTileKey>>,
    layer: LayerId,
    n: int,
    resident: LayerResident,
)
    requires
        0 <= n <= places.len(),
    ensures
        layer_residents(geometry, places, layer, n).contains(resident) <==> resident.key.layer
            == layer && exists|p: int|
            #![trigger places[p]]
            0 <= p < n && places[p] == Some(resident.key) && resident.slot == geometry.slot(p),
    decreases n,
{
    if n > 0 {
        lemma_listed(geometry, places, layer, n - 1, resident);
        let rest = layer_residents(geometry, places, layer, n - 1);
        let all = layer_residents(geometry, places, layer, n);
        if all.contains(resident) {
            let i = choose|i: int| 0 <= i < all.len() && all[i] == resident;
            if i < rest.len() {
                assert(rest[i] == resident);
            } else {
                assert(places[n - 1] == Some(resident.key));
            }
        }
        if resident.key.layer == layer && exists|p: int|
            #![trigger places[p]]
            0 <= p < n && places[p] == Some(resident.key) && resident.slot == geometry.slot(p) {
            let p = choose|p: int|
                #![trigger places[p]]
                0 <= p < n && places[p] == Some(resident.key) && resident.slot == geometry.slot(p);
            if p < n - 1 {
                let i = choose|i: int| 0 <= i < rest.len() && rest[i] == resident;
                assert(all[i] == resident);
            } else {
                assert(all[rest.len() as int] == resident);
            }
        }
    }
}

proof fn lemma_drawn(target: TargetModel, residents: Seq<LayerResident>, resident: LayerResident)
    ensures
        drawn_residents(target, residents).contains(resident) <==> residents.contains(resident)
            && value_of(target.residents, resident.slot) == Some(resident.key),
        resident_clash(target, residents) is None && residents.contains(resident)
            && target.residents.contains_key(resident.slot) ==> target.residents[resident.slot]
            == resident.key,
    decreases residents.len(),
{
    if residents.len() > 0 {
        let rest = residents.drop_last();
        lemma_drawn(target, rest, resident);
        let some = drawn_residents(target, rest);
        let all = drawn_residents(target, residents);
        assert(residents.contains(resident) <==> rest.contains(resident) || residents.last()
            == resident) by {
            if residents.contains(resident) {
                let i = choose|i: int| 0 <= i < residents.len() && residents[i] == resident;
                if i < rest.len() {
                    assert(rest[i] == resident);
                }
            }
            if rest.contains(resident) {
                let i = choose|i: int| 0 <= i < rest.len() && rest[i] == resident;
                assert(residents[i] == resident);
            }
            if residents.last() == resident {
                assert(residents[residents.len() - 1] == resident);
            }
        }
        if all.contains(resident) {
            let i = choose|i: int| 0 <= i < all.len() && all[i] == resident;
            if i < some.len() {
                assert(some[i] == resident);
            }
        }
        if some.contains(resident) {
            let i = choose|i: int| 0 <= i < some.len() && some[i] == resident;
            assert(all[i] == resident);
        }
        if residents.last() == resident && value_of(target.residents, resident.slot) == Some(
            resident.key,
        ) {
            assert(all[some.len() as int] == resident);
        }
    }
}

/// A layer is duplicated tile by tile: each tile of the source that holds pixels is copied from where
/// it lies to a place of its own for the same tile of the new layer, which holds that tile then.
/// Nothing is copied that the source does not hold.
pub proof fn law_clone_copies_every_drawn_tile(
    before: ResidentModel,
    target: TargetModel,
    source: LayerId,
    edit: EditModel,
    command: GpuExactLayerRecoveryCommand,
    layer: LayerId,
    commit: GpuResidentLayerCloneCommit,
    after: ResidentModel,
    target_after: TargetModel,
    p: int,
    key: LayerTileKey,
)
    requires
        clone_reported(
            before,
            target,
            source,
            edit,
            command,
            Ok::<
                (LayerId, GpuResidentLayerCloneCommit),
                Box<GpuResidentMetadataEditFailure>,
            >((layer, commit)),
            after,
            target_after,
        ),
        atlas_sound(before.layout@, before.places),
        0 <= p < before.places.len(),
        before.places[p] == Some(key),
        key.layer == source,
        target.residents.contains_key(before.layout@.slot(p)),
    ensures
        exists|i: int|
            #![trigger commit.clones@[i]]
            {
                &&& 0 <= i < commit.clones@.len()
                &&& commit.clones@[i].source_key == key
                &&& commit.clones@[i].source_slot == before.layout@.slot(p)
                &&& commit.clones@[i].destination_key == (LayerTileKey {
                    layer: edit.layer(),
                    tile: key.tile,
                })
                &&& target_after.residents.contains_key(commit.clones@[i].destination_slot)
                &&& target_after.residents[commit.clones@[i].destination_slot]
                    == commit.clones@[i].destination_key
            },
        forall|i: int|
            #![trigger commit.clones@[i]]
            0 <= i < commit.clones@.len() ==> {
                &&& commit.clones@[i].source_key.layer == source
                &&& target.residents.contains_key(commit.clones@[i].source_slot)
                &&& target.residents[commit.clones@[i].source_slot] == commit.clones@[i].source_key
                &&& commit.clones@[i].destination_key.tile == commit.clones@[i].source_key.tile
                &&& commit.clones@[i].destination_key.layer == edit.layer()
            },
        layer == edit.layer(),
{
    let geometry = before.layout@;
    let listed = layer_residents(geometry, before.places, source, before.places.len() as int);
    let residents = residents_in_order(before, source);
    let drawn = drawn_residents(target, residents);
    let keys = keys_on(drawn, edit.layer());
    let (places, allocations) = allocate_all(geometry, before.places, keys)->0;
    let clones = clones_between(drawn, allocations);
    assert(commit.clones@ == clones);
    lemma_places_name_tiles(geometry, before.places, keys, places, allocations);
    let resident = LayerResident { key, slot: geometry.slot(p) };
    lemma_listed(geometry, before.places, source, before.places.len() as int, resident);
    lemma_sorted_contains(listed, resident);
    lemma_drawn(target, residents, resident);
    assert(drawn.contains(resident));
    let i = choose|i: int| 0 <= i < drawn.len() && drawn[i] == resident;
    assert(allocations[i].key == keys[i]);
    let destinations = clone_destinations(clones);
    assert forall|a: int, b: int|
        #![trigger destinations[a], destinations[b]]
        0 <= a < destinations.len() && 0 <= b < destinations.len() && destinations[a].slot
            == destinations[b].slot implies destinations[a].key == destinations[b].key by {
        assert(allocations[a].slot == allocations[b].slot);
    }
    lemma_installed(target, destinations, i);
    assert(destinations[i].slot == clones[i].destination_slot);
    assert(commit.clones@[i].source_key == key);
    assert forall|j: int| #![trigger commit.clones@[j]] 0 <= j < commit.clones@.len() implies {
        &&& commit.clones@[j].source_key.layer == source
        &&& target.residents.contains_key(commit.clones@[j].source_slot)
        &&& target.residents[commit.clones@[j].source_slot] == commit.clones@[j].source_key
        &&& commit.clones@[j].destination_key.tile == commit.clones@[j].source_key.tile
        &&& commit.clones@[j].destination_key.layer == edit.layer()
    } by {
        let one = drawn[j];
        assert(drawn.contains(one));
        lemma_drawn(target, residents, one);
        lemma_sorted_contains(listed, one);
        lemma_listed(geometry, before.places, source, before.places.len() as int, one);
        assert(allocations[j].key == keys[j]);
    }
}

/// A layer that is imported is brought to the device tile by tile: each tile with its pixels, to a
/// place that holds the tile of the new layer then.
pub proof fn law_import_brings_every_tile(
    before: ResidentModel,
    target: TargetModel,
    edit: EditModel,
    command: GpuExactLayerRecoveryCommand,
    layer: LayerId,
    commit: GpuResidentLayerImportCommit,
    after: ResidentModel,
    target_after: TargetModel,
    t: int,
)
    requires
        import_reported(
            before,
            target,
            edit,
            command,
            Ok::<
                (LayerId, GpuResidentLayerImportCommit),
                Box<GpuResidentMetadataEditFailure>,
            >((layer, commit)),
            after,
            target_after,
        ),
        atlas_sound(before.layout@, before.places),
        0 <= t < command@.tiles.len(),
    ensures
        layer == edit.layer(),
        commit.uploads@.len() == command@.tiles.len(),
        commit.uploads@[t].key == (LayerTileKey {
            layer: edit.layer(),
            tile: command@.tiles[t].0,
        }),
        commit.uploads@[t].pixels@ == command@.tiles[t].1,
        target_after.residents.contains_key(commit.uploads@[t].slot),
        target_after.residents[commit.uploads@[t].slot] == commit.uploads@[t].key,
{
    let geometry = before.layout@;
    let keys = tile_keys(edit.layer(), command@.tiles);
    let (places, allocations) = allocate_all(geometry, before.places, keys)->0;
    lemma_places_name_tiles(geometry, before.places, keys, places, allocations);
    let destinations = allocated(allocations);
    assert(upload_destinations(commit.uploads@)[t] == destinations[t]);
    assert(allocations[t].key == keys[t]);
    assert forall|a: int, b: int|
        #![trigger destinations[a], destinations[b]]
        0 <= a < destinations.len() && 0 <= b < destinations.len() && destinations[a].slot
            == destinations[b].slot implies destinations[a].key == destinations[b].key by {
        assert(allocations[a].slot == allocations[b].slot);
    }
    lemma_installed(target, destinations, t);
}

proof fn lemma_joined(
    document: DocumentModel,
    tiles: Seq<Seq<(TileCoord, Seq<LinearRgba>)>>,
    i: int,
    t: int,
) -> (at: int)
    requires
        0 <= i < tiles.len(),
        0 <= t < tiles[i].len(),
    ensures
        0 <= at < joined_tiles(tiles).len(),
        joined_keys(document.metadata, tiles).len() == joined_tiles(tiles).len(),
        joined_tiles(tiles)[at] == tiles[i][t],
        joined_keys(document.metadata, tiles)[at] == (LayerTileKey {
            layer: document.metadata.layers[i].id,
            tile: tiles[i][t].0,
        }),
    decreases tiles.len(),
{
    let rest = tiles.drop_last();
    lemma_joined_len(document, rest);
    if i < rest.len() {
        assert(rest[i] == tiles[i]);
        lemma_joined(document, rest, i, t)
    } else {
        joined_tiles(rest).len() + t
    }
}

proof fn lemma_joined_len(
    document: DocumentModel,
    tiles: Seq<Seq<(TileCoord, Seq<LinearRgba>)>>,
)
    ensures
        joined_keys(document.metadata, tiles).len() == joined_tiles(tiles).len(),
    decreases tiles.len(),
{
    if tiles.len() > 0 {
        lemma_joined_len(document, tiles.drop_last());
    }
}

/// A document that is brought to the device is brought as a whole: each tile of each layer with its
/// pixels, to a place that holds it then.
pub proof fn law_bootstrap_brings_the_whole_document(
    document: DocumentModel,
    target: TargetModel,
    limits: GpuResidentDocumentLimits,
    tiles: Seq<Seq<(TileCoord, Seq<LinearRgba>)>>,
    bootstrap: GpuResidentDocumentBootstrap,
    target_after: TargetModel,
    i: int,
    tile: TileCoord,
)
    requires
        layers_listed(document, tiles),
        bootstrap_reported(
            document,
            target,
            limits,
            tiles,
            Ok::<
                GpuResidentDocumentBootstrap,
                crate::gpu_resident_document::GpuResidentDocumentError,
            >(bootstrap),
            target_after,
        ),
        target.layout@.valid(),
        0 <= i < document.metadata.layers.len(),
        document.rasters[i].tiles.contains_key(tile),
    ensures
        exists|u: int|
            #![trigger bootstrap.spec_uploads()[u]]
            {
                &&& 0 <= u < bootstrap.spec_uploads().len()
                &&& bootstrap.spec_uploads()[u].key == (LayerTileKey {
                    layer: document.metadata.layers[i].id,
                    tile,
                })
                &&& bootstrap.spec_uploads()[u].pixels@ == document.rasters[i].tiles[tile]
                &&& target_after.residents.contains_key(bootstrap.spec_uploads()[u].slot)
                &&& target_after.residents[bootstrap.spec_uploads()[u].slot]
                    == bootstrap.spec_uploads()[u].key
            },
        bootstrap.spec_document().metadata == document.metadata,
{
    let geometry = target.layout@;
    let keys = joined_keys(document.metadata, tiles);
    let none = Seq::<Option<LayerTileKey>>::empty();
    let (places, allocations) = allocate_all(geometry, none, keys)->0;
    lemma_capacity_bounds(geometry);
    assert(0int % geometry.slots_per_page() == 0) by (nonlinear_arith)
        requires
            geometry.slots_per_page() > 0,
    ;
    assert(atlas_sound(geometry, none));
    lemma_places_name_tiles(geometry, none, keys, places, allocations);
    assert(entries_map(tiles[i]).contains_key(tile));
    let t = choose|t: int| 0 <= t < tiles[i].len() && (#[trigger] tiles[i][t]).0 == tile;
    let entries = tiles[i];
    assert(crate::keyed_map::keys_unique(entries)) by {
        assert forall|a: int, b: int|
            #![trigger entries[a], entries[b]]
            0 <= a < entries.len() && 0 <= b < entries.len() && a != b implies entries[a].0
            != entries[b].0 by {
            if a < b {
                assert(entries[a].0 != entries[b].0);
            } else {
                assert(entries[b].0 != entries[a].0);
            }
        }
    }
    crate::keyed_map::lemma_entry_in_map(entries, t);
    let at = lemma_joined(document, tiles, i, t);
    let destinations = allocated(allocations);
    let uploads = bootstrap.spec_uploads();
    assert(upload_destinations(uploads)[at] == destinations[at]);
    assert(allocations[at].key == keys[at]);
    assert forall|a: int, b: int|
        #![trigger destinations[a], destinations[b]]
        0 <= a < destinations.len() && 0 <= b < destinations.len() && destinations[a].slot
            == destinations[b].slot implies destinations[a].key == destinations[b].key by {
        assert(allocations[a].slot == allocations[b].slot);
    }
    lemma_installed(target, destinations, at);
    assert(bootstrap.spec_uploads()[at].key == keys[at]);
}

} // verus!
