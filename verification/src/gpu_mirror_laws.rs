//! What the mirror shows once revisions and changes of whole layers have reached it.

use crate::document::{DocumentModel, DocumentRevision, LayerId};
use crate::gpu_atlas::LayerTileKey;
use crate::gpu_cpu_mirror::{
    copy_shapes, patch_shapes, patches_error, GpuMirrorPatchBatch, MirrorModel, PatchBatchModel,
};
use crate::gpu_document_mirror::{BatchPlanModel, ReadbackPlanModel};
use crate::gpu_document_mirror_dispatcher::{
    batch_taken, capacity_error, enqueue_error, enqueued, first_over_budget, layers_dropped,
    revision_finished, structure_error, structure_registered, structures_applied, DispatcherModel,
    StructuralModel,
};
use crate::gpu_mirror_capture::{capture_matches, CaptureModel};
use crate::gpu_mirror_reconciler::{
    advanced, completion_error, is_complete, pending_position, received_batches, revisions_increase,
    with_received, PendingModel, ReconcilerModel,
};
use crate::gpu_mirror_structure::{document_tiles, restructured, StructureModel};
use crate::gpu_pixel_laws::{
    all_full, decides, given_by, law_last_batch_decides, patches_apply, shown_at,
};
use crate::keyed_map::entries_map;
use crate::raster::{LinearRgba, TileCoord};
use vstd::prelude::*;

verus! {

/// When a revision is complete the mirror shows its batches: the last patch over a place decides its
/// color, a place that no batch reaches keeps its own, and the mirror has the revision.
pub proof fn law_complete_revision_shows_its_batches(
    mirror: MirrorModel,
    pending: PendingModel,
    key: LayerTileKey,
    x: int,
    y: int,
)
    requires
        mirror.geometry.valid(),
        all_full(mirror.tiles, mirror.geometry.tile_size),
        is_complete(pending),
        forall|b: int|
            0 <= b < pending.received.len() ==> patches_apply(
                mirror.geometry,
                (#[trigger] pending.received[b]->0).regions,
            ),
        0 <= x < mirror.geometry.tile_size,
        0 <= y < mirror.geometry.tile_size,
    ensures
        advanced(mirror, pending).revision == pending.revision,
        advanced(mirror, pending).geometry == mirror.geometry,
        all_full(advanced(mirror, pending).tiles, mirror.geometry.tile_size),
        forall|b: int, r: int|
            #![trigger (pending.received[b]->0).regions[r]]
            0 <= b < pending.received.len() && 0 <= r < (pending.received[b]->0).regions.len()
                && decides((pending.received[b]->0).regions[r], key, x, y) && (forall|q: int|
                r < q < (pending.received[b]->0).regions.len() ==> !decides(
                    #[trigger] (pending.received[b]->0).regions[q],
                    key,
                    x,
                    y,
                )) && (forall|c: int, q: int|
                #![trigger (pending.received[c]->0).regions[q]]
                b < c < pending.received.len() && 0 <= q < (pending.received[c]->0).regions.len()
                    ==> !decides((pending.received[c]->0).regions[q], key, x, y)) ==> shown_at(
                advanced(mirror, pending).tiles,
                mirror.geometry.tile_size,
                key,
                x,
                y,
            ) == given_by((pending.received[b]->0).regions[r], x, y),
        (forall|c: int, q: int|
            #![trigger (pending.received[c]->0).regions[q]]
            0 <= c < pending.received.len() && 0 <= q < (pending.received[c]->0).regions.len()
                ==> !decides((pending.received[c]->0).regions[q], key, x, y)) ==> shown_at(
            advanced(mirror, pending).tiles,
            mirror.geometry.tile_size,
            key,
            x,
            y,
        ) == shown_at(mirror.tiles, mirror.geometry.tile_size, key, x, y),
{
    let batches = received_batches(pending);
    assert forall|b: int| 0 <= b < batches.len() implies patches_apply(
        mirror.geometry,
        (#[trigger] batches[b]).regions,
    ) by {
        assert(batches[b] == pending.received[b]->0);
    }
    law_last_batch_decides(mirror.geometry, mirror.tiles, batches, key, x, y);
    assert forall|b: int, r: int|
        #![trigger (pending.received[b]->0).regions[r]]
        0 <= b < pending.received.len() && 0 <= r < (pending.received[b]->0).regions.len()
            && decides((pending.received[b]->0).regions[r], key, x, y) && (forall|q: int|
            r < q < (pending.received[b]->0).regions.len() ==> !decides(
                #[trigger] (pending.received[b]->0).regions[q],
                key,
                x,
                y,
            )) && (forall|c: int, q: int|
            #![trigger (pending.received[c]->0).regions[q]]
            b < c < pending.received.len() && 0 <= q < (pending.received[c]->0).regions.len()
                ==> !decides((pending.received[c]->0).regions[q], key, x, y)) implies shown_at(
        advanced(mirror, pending).tiles,
        mirror.geometry.tile_size,
        key,
        x,
        y,
    ) == given_by((pending.received[b]->0).regions[r], x, y) by {
        assert(batches[b].regions[r] == (pending.received[b]->0).regions[r]);
        assert forall|q: int| r < q < batches[b].regions.len() implies !decides(
            #[trigger] batches[b].regions[q],
            key,
            x,
            y,
        ) by {
            assert(batches[b].regions[q] == (pending.received[b]->0).regions[q]);
        }
        assert forall|c: int, q: int|
            #![trigger batches[c].regions[q]]
            b < c < batches.len() && 0 <= q < batches[c].regions.len() implies !decides(
            batches[c].regions[q],
            key,
            x,
            y,
        ) by {
            assert(batches[c].regions[q] == (pending.received[c]->0).regions[q]);
        }
    }
    if forall|c: int, q: int|
        #![trigger (pending.received[c]->0).regions[q]]
        0 <= c < pending.received.len() && 0 <= q < (pending.received[c]->0).regions.len()
            ==> !decides((pending.received[c]->0).regions[q], key, x, y) {
        assert forall|c: int, q: int|
            #![trigger batches[c].regions[q]]
            0 <= c < batches.len() && 0 <= q < batches[c].regions.len() implies !decides(
            batches[c].regions[q],
            key,
            x,
            y,
        ) by {
            assert(batches[c].regions[q] == (pending.received[c]->0).regions[q]);
        }
    }
}

/// A batch is kept for its revision at its own place; nothing else that waits changes.
pub proof fn law_batch_is_kept_at_its_place(
    pending: Seq<PendingModel>,
    batch: PatchBatchModel,
    p: int,
)
    requires
        revisions_increase(pending),
        0 <= p < pending.len(),
        pending[p].revision == batch.revision,
        0 <= batch.index < pending[p].received.len(),
    ensures
        ({
            let after = with_received(pending, batch);
            &&& after.len() == pending.len()
            &&& after[p].received[batch.index] == Some(batch)
            &&& after[p].received.len() == pending[p].received.len()
            &&& forall|k: int|
                0 <= k < pending[p].received.len() && k != batch.index ==> (
                #[trigger] after[p].received[k]) == pending[p].received[k]
            &&& after[p].revision == pending[p].revision
            &&& after[p].expected == pending[p].expected
            &&& forall|q: int|
                0 <= q < pending.len() && q != p ==> #[trigger] after[q] == pending[q]
        }),
{
    assert(pending[p].revision == batch.revision);
    let found = pending_position(pending, batch.revision)->0;
    assert(pending[found].revision == pending[p].revision);
    assert(found == p) by {
        if found < p {
            assert(pending[found].revision.0 < pending[p].revision.0);
        }
        if p < found {
            assert(pending[p].revision.0 < pending[found].revision.0);
        }
    }
}

/// No patch of the batch is out of place.
pub open(crate) spec fn patches_are_sound(
    model: ReconcilerModel,
    batch: GpuMirrorPatchBatch,
) -> bool {
    patches_error(model.mirror.geometry, batch.regions@, batch.regions@.len() as int) is None
}

/// A batch is taken just where its patches are sound, its revision waits for it, and it brings what
/// was planned: as many bytes, and the same tiles, bounds and states in the same order.
pub proof fn law_only_planned_batches_are_taken(
    model: ReconcilerModel,
    batch: GpuMirrorPatchBatch,
    p: int,
)
    requires
        revisions_increase(model.pending),
        0 <= p < model.pending.len(),
        model.pending[p].revision == batch@.revision,
        model.pending[p].received.len() == model.pending[p].expected.len(),
    ensures
        completion_error(model, &batch) is None <==> {
            let index = batch@.index;
            &&& patches_are_sound(model, batch)
            &&& index < model.pending[p].received.len()
            &&& model.pending[p].received[index] is None
            &&& model.pending[p].expected[index].byte_len == batch@.byte_len
            &&& model.pending[p].expected[index].regions.len() == batch@.regions.len()
            &&& forall|r: int|
                #![trigger batch@.regions[r]]
                0 <= r < batch@.regions.len() ==> {
                    let planned = model.pending[p].expected[index].regions[r];
                    &&& planned.key == batch@.regions[r].key
                    &&& planned.local_bounds@ == batch@.regions[r].bounds
                    &&& planned.initialized == batch@.regions[r].initialized
                }
        },
{
    let pending = model.pending;
    let found = pending_position(pending, batch@.revision)->0;
    assert(pending[found].revision == pending[p].revision);
    assert(found == p) by {
        if found < p {
            assert(pending[found].revision.0 < pending[p].revision.0);
        }
        if p < found {
            assert(pending[p].revision.0 < pending[found].revision.0);
        }
    }
    let planned = pending[p].expected[batch@.index].regions;
    let brought = batch@.regions;
    let raw = batch.regions@;
    assert(forall|r: int|
        #![trigger brought[r]]
        0 <= r < raw.len() ==> brought[r].key == raw[r].key && brought[r].bounds
            == raw[r].local_bounds@ && brought[r].initialized == raw[r].initialized);
    if copy_shapes(planned) == patch_shapes(raw) {
        assert(copy_shapes(planned).len() == patch_shapes(raw).len());
        assert forall|r: int| #![trigger brought[r]] 0 <= r < brought.len() implies {
            &&& planned[r].key == brought[r].key
            &&& planned[r].local_bounds@ == brought[r].bounds
            &&& planned[r].initialized == brought[r].initialized
        } by {
            assert(copy_shapes(planned)[r] == patch_shapes(raw)[r]);
        }
    } else if planned.len() == brought.len() {
        if forall|r: int|
            #![trigger brought[r]]
            0 <= r < brought.len() ==> {
                &&& planned[r].key == brought[r].key
                &&& planned[r].local_bounds@ == brought[r].bounds
                &&& planned[r].initialized == brought[r].initialized
            } {
            assert forall|r: int| 0 <= r < raw.len() implies #[trigger] copy_shapes(planned)[r]
                == patch_shapes(raw)[r] by {
                assert(planned[r].local_bounds@ == brought[r].bounds);
                assert(planned[r].local_bounds == raw[r].local_bounds);
            }
            assert(copy_shapes(planned) =~= patch_shapes(raw));
        }
    }
}

/// Installing a layer gives it the captured tiles and no others; every other layer stays.
pub proof fn law_installed_layer_has_the_captured_tiles(
    tiles: Map<LayerTileKey, Seq<LinearRgba>>,
    command: crate::gpu_layer_recovery::LayerCommandModel,
    at: int,
)
    requires
        command.valid(),
        0 <= at < command.tiles.len(),
    ensures
        ({
            let after = restructured(tiles, StructureModel::InstallLayer(command));
            let key = LayerTileKey { layer: command.layer, tile: command.tiles[at].0 };
            &&& after.contains_key(key)
            &&& after[key] == command.tiles[at].1
            &&& forall|other: LayerTileKey| #[trigger]
                after.contains_key(other) && other.layer == command.layer ==> exists|t: int|
                    0 <= t < command.tiles.len() && (#[trigger] command.tiles[t]).0 == other.tile
            &&& forall|other: LayerTileKey|
                other.layer != command.layer ==> (#[trigger] after.contains_key(other)
                    <==> tiles.contains_key(other)) && (tiles.contains_key(other) ==> after[other]
                    == tiles[other])
        }),
{
    let entries = command.tiles;
    assert(crate::keyed_map::keys_unique(entries)) by {
        assert forall|i: int, j: int|
            #![trigger entries[i], entries[j]]
            0 <= i < entries.len() && 0 <= j < entries.len() && i != j implies entries[i].0
            != entries[j].0 by {
            if i < j {
                assert(entries[i].0 != entries[j].0);
            } else {
                assert(entries[j].0 != entries[i].0);
            }
        }
    }
    crate::keyed_map::lemma_entry_in_map(entries, at);
    let after = restructured(tiles, StructureModel::InstallLayer(command));
    assert forall|other: LayerTileKey| #[trigger]
        after.contains_key(other) && other.layer == command.layer implies exists|t: int|
        0 <= t < command.tiles.len() && (#[trigger] command.tiles[t]).0 == other.tile by {
        assert(entries_map(entries).contains_key(other.tile));
    }
}

/// Layers that are dropped leave the mirror; every other tile stays as it is.
pub proof fn law_dropped_layers_leave_the_mirror(
    reconciler: ReconcilerModel,
    layers: Seq<LayerId>,
    key: LayerTileKey,
)
    ensures
        layers_dropped(reconciler, layers).mirror.tiles.contains_key(key)
            <==> reconciler.mirror.tiles.contains_key(key) && !layers.contains(key.layer),
        layers_dropped(reconciler, layers).mirror.tiles.contains_key(key) ==> layers_dropped(
            reconciler,
            layers,
        ).mirror.tiles[key] == reconciler.mirror.tiles[key],
        layers_dropped(reconciler, layers).mirror.revision == reconciler.mirror.revision,
        layers_dropped(reconciler, layers).mirror.geometry == reconciler.mirror.geometry,
        layers_dropped(reconciler, layers).latest == reconciler.latest,
        layers_dropped(reconciler, layers).pending == reconciler.pending,
    decreases layers.len(),
{
    if layers.len() > 0 {
        let rest = layers.drop_last();
        law_dropped_layers_leave_the_mirror(reconciler, rest, key);
        assert(layers.contains(key.layer) <==> rest.contains(key.layer) || layers.last()
            == key.layer) by {
            if layers.contains(key.layer) {
                let i = choose|i: int| 0 <= i < layers.len() && layers[i] == key.layer;
                if i < rest.len() {
                    assert(rest[i] == key.layer);
                }
            }
            if rest.contains(key.layer) {
                let i = choose|i: int| 0 <= i < rest.len() && rest[i] == key.layer;
                assert(layers[i] == key.layer);
            }
            if layers.last() == key.layer {
                assert(layers[layers.len() - 1] == key.layer);
            }
        }
    }
}

/// The mirror of a document shows the tiles of each of its layers.
pub proof fn law_document_mirror_shows_every_layer(
    document: DocumentModel,
    n: int,
    key: LayerTileKey,
)
    requires
        0 <= n <= document.metadata.layers.len(),
        crate::document_metadata::layers_distinct(document.metadata.layers),
    ensures
        forall|i: int|
            #![trigger document.metadata.layers[i]]
            0 <= i < n && document.metadata.layers[i].id == key.layer ==> {
                &&& document_tiles(document, n).contains_key(key)
                    <==> document.rasters[i].tiles.contains_key(key.tile)
                &&& document.rasters[i].tiles.contains_key(key.tile) ==> document_tiles(
                    document,
                    n,
                )[key] == document.rasters[i].tiles[key.tile]
            },
        (forall|i: int|
            0 <= i < n ==> (#[trigger] document.metadata.layers[i]).id != key.layer)
            ==> !document_tiles(document, n).contains_key(key),
    decreases n,
{
    if n > 0 {
        law_document_mirror_shows_every_layer(document, n - 1, key);
        let last = document.metadata.layers[n - 1];
        assert forall|i: int|
            #![trigger document.metadata.layers[i]]
            0 <= i < n && document.metadata.layers[i].id == key.layer implies {
            &&& document_tiles(document, n).contains_key(key)
                <==> document.rasters[i].tiles.contains_key(key.tile)
            &&& document.rasters[i].tiles.contains_key(key.tile) ==> document_tiles(
                document,
                n,
            )[key] == document.rasters[i].tiles[key.tile]
        } by {
            if i < n - 1 {
                assert(document.metadata.layers[i].id != document.metadata.layers[n - 1].id);
            }
        }
    }
}

proof fn lemma_over_budget(batches: Seq<BatchPlanModel>, maximum: u64)
    ensures
        first_over_budget(batches, maximum) is None <==> forall|b: int|
            0 <= b < batches.len() ==> (#[trigger] batches[b]).byte_len <= maximum,
    decreases batches.len(),
{
    if batches.len() > 0 {
        let rest = batches.drop_last();
        lemma_over_budget(rest, maximum);
        assert(forall|b: int| #![trigger batches[b]] 0 <= b < rest.len() ==> rest[b] == batches[b]);
        assert(batches[batches.len() - 1] == batches.last());
        if first_over_budget(batches, maximum) is None {
            assert forall|b: int| 0 <= b < batches.len() implies (#[trigger] batches[b]).byte_len
                <= maximum by {
                if b < rest.len() {
                    assert(rest[b].byte_len <= maximum);
                }
            }
        } else if forall|b: int|
            0 <= b < batches.len() ==> (#[trigger] batches[b]).byte_len <= maximum {
            assert forall|b: int| 0 <= b < rest.len() implies (#[trigger] rest[b]).byte_len
                <= maximum by {
                assert(batches[b].byte_len <= maximum);
            }
        }
    }
}

/// There is room for a revision just where it has batches, each fits into the staging buffer, and all
/// together fit beside what is already held.
pub proof fn law_room_is_shared_by_all_revisions(model: DispatcherModel, plan: ReadbackPlanModel)
    requires
        0 <= model.resident,
    ensures
        capacity_error(model, plan) is None <==> {
            &&& plan.batches.len() > 0
            &&& forall|b: int|
                0 <= b < plan.batches.len() ==> (#[trigger] plan.batches[b]).byte_len
                    <= model.max_staging
            &&& model.resident + plan.byte_len <= model.max_snapshot
        },
{
    lemma_over_budget(plan.batches, model.max_staging);
}

/// A revision is queued behind the others with its capture; it is then the newest, nothing of it has
/// arrived, and its bytes are counted. The mirror and the other revisions stay.
pub proof fn law_queued_revision_is_the_newest(
    model: DispatcherModel,
    plan: ReadbackPlanModel,
    capture: CaptureModel,
)
    requires
        enqueue_error(model, plan, capture) is None,
    ensures
        ({
            let after = enqueued(model, plan, capture);
            &&& capture.submitted
            &&& capture_matches(capture, plan)
            &&& plan.revision.0 > model.newest().0
            &&& after.newest() == plan.revision
            &&& after.reconciler.mirror == model.reconciler.mirror
            &&& after.queue.len() == model.queue.len() + 1
            &&& after.queue.drop_last() == model.queue
            &&& after.queue.last().plan == plan
            &&& after.queue.last().capture == capture
            &&& after.queue.last().received.len() == 0
            &&& after.queue.last().after.len() == 0
            &&& after.reconciler.pending.drop_last() == model.reconciler.pending
            &&& after.reconciler.pending.last().revision == plan.revision
            &&& after.reconciler.pending.last().expected == plan.batches
            &&& forall|k: int|
                0 <= k < plan.batches.len() ==> (
                #[trigger] after.reconciler.pending.last().received[k]) is None
            &&& after.resident == model.resident + plan.byte_len
            &&& after.retiring == model.retiring
        }),
{
    let after = enqueued(model, plan, capture);
    assert(after.queue.drop_last() =~= model.queue);
    assert(after.reconciler.pending.drop_last() =~= model.reconciler.pending);
}

/// A change of whole layers is taken just where it follows the newest revision, and is the newest
/// then. It reaches the mirror at once where nothing is queued, and otherwise waits behind the last
/// revision of the queue, which leaves the mirror as it is.
pub proof fn law_structural_change_waits_its_turn(
    model: DispatcherModel,
    source: DocumentRevision,
    revision: DocumentRevision,
    change: StructureModel,
)
    requires
        structure_error(model, source, revision, change) is None,
        model.queue.len() == model.reconciler.pending.len(),
    ensures
        ({
            let structural = StructuralModel { revision, change };
            let after = structure_registered(model, structural);
            &&& source == model.newest()
            &&& revision.0 == source.0 + 1
            &&& after.newest() == revision
            &&& after.resident == model.resident
            &&& after.queue.len() == model.queue.len()
            &&& model.queue.len() == 0 ==> after.reconciler.mirror.revision == revision
                && after.reconciler.mirror.tiles == restructured(
                model.reconciler.mirror.tiles,
                change,
            )
            &&& model.queue.len() > 0 ==> {
                let last = model.queue.len() - 1;
                &&& after.reconciler == model.reconciler
                &&& after.queue[last].after.drop_last() == model.queue[last].after
                &&& after.queue[last].after.last() == structural
                &&& after.queue[last].plan == model.queue[last].plan
                &&& after.queue[last].received == model.queue[last].received
                &&& forall|i: int| 0 <= i < last ==> #[trigger] after.queue[i] == model.queue[i]
            }
        }),
{
    let structural = StructuralModel { revision, change };
    let after = structure_registered(model, structural);
    if model.queue.len() > 0 {
        let last = model.queue.len() - 1;
        assert(after.queue[last].after.drop_last() =~= model.queue[last].after);
        assert(after.queue.last() == after.queue[last]);
    }
}

proof fn lemma_structures(reconciler: ReconcilerModel, after: Seq<StructuralModel>)
    ensures
        structures_applied(reconciler, after).pending == reconciler.pending,
        structures_applied(reconciler, after).mirror.geometry == reconciler.mirror.geometry,
        after.len() == 0 ==> structures_applied(reconciler, after) == reconciler,
        after.len() > 0 ==> structures_applied(reconciler, after).mirror.revision
            == after.last().revision,
        structures_applied(reconciler, after).latest == (if after.len() > 0
            && reconciler.pending.len() == 0 {
            after.last().revision
        } else {
            reconciler.latest
        }),
    decreases after.len(),
{
    if after.len() > 0 {
        lemma_structures(reconciler, after.drop_last());
    }
}

/// A batch that arrives is kept with its revision, and its bytes are free again; the mirror and the
/// newest revision stay.
pub proof fn law_arrived_batch_frees_its_bytes(model: DispatcherModel, batch: GpuMirrorPatchBatch)
    requires
        model.queue.len() > 0,
    ensures
        ({
            let after = batch_taken(model, batch);
            &&& after.resident == model.resident - batch@.byte_len
            &&& after.queue.len() == model.queue.len()
            &&& after.queue[0].received == model.queue[0].received.push(batch)
            &&& after.queue[0].plan == model.queue[0].plan
            &&& after.queue[0].after == model.queue[0].after
            &&& forall|i: int| 0 < i < model.queue.len() ==> #[trigger] after.queue[i]
                == model.queue[i]
            &&& after.reconciler.mirror == model.reconciler.mirror
            &&& after.reconciler.latest == model.reconciler.latest
            &&& after.newest() == model.newest()
            &&& after.retiring == model.retiring
        }),
{
    let after = batch_taken(model, batch);
    assert(after.queue.last() == after.queue[model.queue.len() - 1]);
}

/// When the last batch of a revision arrives the revision leaves the queue. The mirror then has it,
/// or the last change of whole layers behind it. The newest revision stays, and layers that were to
/// be dropped are dropped once nothing is queued any more.
pub proof fn law_finished_revision_leaves_the_queue(model: DispatcherModel, batch: PatchBatchModel)
    requires
        model.queue.len() > 0,
        model.queue.len() == model.reconciler.pending.len(),
        revisions_increase(model.reconciler.pending),
        model.reconciler.pending[0].revision == batch.revision,
    ensures
        ({
            let after = revision_finished(model, batch);
            &&& after.queue == model.queue.drop_first()
            &&& after.reconciler.pending == model.reconciler.pending.drop_first()
            &&& after.resident == model.resident - batch.byte_len
            &&& after.newest() == model.newest()
            &&& model.queue[0].after.len() == 0 ==> after.reconciler.mirror.revision
                == batch.revision
            &&& model.queue[0].after.len() > 0 ==> after.reconciler.mirror.revision
                == model.queue[0].after.last().revision
            &&& model.queue.len() > 1 ==> after.retiring == model.retiring
            &&& model.queue.len() == 1 ==> after.retiring.len() == 0
            &&& forall|key: LayerTileKey|
                model.queue.len() == 1 && model.retiring.contains(key.layer)
                    ==> !#[trigger] after.reconciler.mirror.tiles.contains_key(key)
        }),
{
    let after = revision_finished(model, batch);
    let pending = model.reconciler.pending;
    let found = pending_position(pending, batch.revision)->0;
    assert(pending[0].revision == batch.revision);
    assert(pending[found].revision == pending[0].revision);
    assert(found == 0) by {
        if 0 < found {
            assert(pending[0].revision.0 < pending[found].revision.0);
        }
    }
    let start = ReconcilerModel {
        mirror: advanced(model.reconciler.mirror, with_received(pending, batch)[0]),
        latest: model.reconciler.latest,
        pending: pending.drop_first(),
    };
    let applied = structures_applied(start, model.queue[0].after);
    lemma_structures(start, model.queue[0].after);
    let any = LayerTileKey { layer: LayerId(0), tile: TileCoord { x: 0, y: 0 } };
    law_dropped_layers_leave_the_mirror(applied, model.retiring, any);
    assert forall|key: LayerTileKey|
        model.queue.len() == 1 && model.retiring.contains(
            key.layer,
        ) implies !#[trigger] after.reconciler.mirror.tiles.contains_key(key) by {
        law_dropped_layers_leave_the_mirror(applied, model.retiring, key);
    }
    if model.queue.len() > 1 {
        assert(after.queue.last() == model.queue.last());
    } else {
        assert(model.queue.last() == model.queue[0]);
    }
}

} // verus!
