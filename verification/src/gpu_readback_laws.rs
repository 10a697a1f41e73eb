//! Where the pixels of a readback come from and where they go.

use crate::document::DocumentRevision;
use crate::gpu_atlas::AtlasLayout;
use crate::gpu_cpu_mirror::PatchBatchModel;
use crate::gpu_document_mirror::{
    batched_pieces, collected_pieces, empty_batch, law_batches_share_the_pieces_within_their_budget,
    needs_batch, packed, piece_at, piece_error, readback_plan, region_error, region_holds_pixels,
    region_pieces, rows_per_piece, unplaced, with_piece, BatchPlanModel, GpuMirrorCopyRegion,
    GpuMirrorPlanError, ReadbackPlanModel,
};
use crate::gpu_document_undo::{CapturePlanModel, GpuMementoResidentState, GpuUndoCopyRegion};
use crate::gpu_mirror_capture::{
    batch_read, decoded_region, pixel_of, region_read, region_words, words_read,
};
use crate::pixel_grid::lemma_grid_bound;
use crate::raster::LinearRgba;
use vstd::prelude::*;

verus! {

/// A copy reads the pixel of a region from where the pixel lies on the page: the same key and place,
/// bounds that hold the pixel, and an origin that is as far from the bounds as that of the region.
pub open spec fn copy_reads(
    copy: GpuMirrorCopyRegion,
    region: GpuUndoCopyRegion,
    x: int,
    y: int,
) -> bool {
    &&& copy.initialized
    &&& copy.key == region.key
    &&& copy.slot == region.slot
    &&& copy.local_bounds@.contains(x, y)
    &&& region.local_bounds@.min_x <= copy.local_bounds@.min_x
    &&& region.local_bounds@.min_y <= copy.local_bounds@.min_y
    &&& copy.local_bounds@.max_x <= region.local_bounds@.max_x
    &&& copy.local_bounds@.max_y <= region.local_bounds@.max_y
    &&& copy.physical_origin[0] - copy.local_bounds@.min_x == region.physical_origin[0]
        - region.local_bounds@.min_x
    &&& copy.physical_origin[1] - copy.local_bounds@.min_y == region.physical_origin[1]
        - region.local_bounds@.min_y
    &&& copy.extent[0] == copy.local_bounds@.max_x - copy.local_bounds@.min_x
    &&& copy.extent[1] == copy.local_bounds@.max_y - copy.local_bounds@.min_y
    &&& copy.bytes_per_row == 16 * copy.extent[0]
}

/// Some batch of the plan reads the pixel.
pub open spec fn plan_reads(
    plan: ReadbackPlanModel,
    region: GpuUndoCopyRegion,
    x: int,
    y: int,
) -> bool {
    exists|b: int, q: int|
        #![trigger plan.batches[b].regions[q]]
        0 <= b < plan.batches.len() && 0 <= q < plan.batches[b].regions.len() && copy_reads(
            plan.batches[b].regions[q],
            region,
            x,
            y,
        )
}

proof fn lemma_piece_reads(region: GpuUndoCopyRegion, max: int, x: int, y: int) -> (k: int)
    requires
        region_holds_pixels(region),
        piece_error(region, true, max) is None,
        region.local_bounds@.contains(x, y),
    ensures
        0 <= k < region_pieces(region, true, max).len(),
        copy_reads(region_pieces(region, true, max)[k], region, x, y),
{
    let bounds = region.local_bounds@;
    let rows = rows_per_piece(bounds.width() * 16, max);
    let offset = y - bounds.min_y;
    let k = offset / rows;
    vstd::arithmetic::div_mod::lemma_fundamental_div_mod(offset, rows);
    assert(k >= 0) by (nonlinear_arith)
        requires
            k == offset / rows,
            offset >= 0,
            rows > 0,
    ;
    assert(rows * k == k * rows) by (nonlinear_arith);
    crate::gpu_document_mirror::lemma_piece_count(bounds.height(), rows, k);
    assert(region_pieces(region, true, max)[k] == piece_at(region, rows, k));
    assert(0 <= k * rows) by (nonlinear_arith)
        requires
            k >= 0,
            rows > 0,
    ;
    k
}

proof fn lemma_collected_reads(
    regions: Seq<GpuUndoCopyRegion>,
    states: Seq<GpuMementoResidentState>,
    max: int,
    n: int,
    i: int,
    k: int,
) -> (at: int)
    requires
        0 <= i < n <= regions.len(),
        collected_pieces(regions, states, max, n) is Ok,
        0 <= k < region_pieces(regions[i], states[i].document_initialized, max).len(),
    ensures
        0 <= at < collected_pieces(regions, states, max, n)->Ok_0.len(),
        collected_pieces(regions, states, max, n)->Ok_0[at] == region_pieces(
            regions[i],
            states[i].document_initialized,
            max,
        )[k],
        region_error(regions, states, max, i) is None,
    decreases n,
{
    let earlier = collected_pieces(regions, states, max, n - 1)->Ok_0;
    if i < n - 1 {
        lemma_collected_reads(regions, states, max, n - 1, i, k)
    } else {
        earlier.len() + k
    }
}

proof fn lemma_batched_item(batches: Seq<BatchPlanModel>, at: int) -> (place: (int, int))
    requires
        0 <= at < batched_pieces(batches).len(),
    ensures
        0 <= place.0 < batches.len(),
        0 <= place.1 < batches[place.0].regions.len(),
        batched_pieces(batches)[at] == unplaced(batches[place.0].regions[place.1]),
    decreases batches.len(),
{
    if batches.len() == 0 {
        (0, 0)
    } else {
        let rest = batches.drop_last();
        let head = batched_pieces(rest);
        if at < head.len() {
            let place = lemma_batched_item(rest, at);
            assert(rest[place.0] == batches[place.0]);
            place
        } else {
            (batches.len() - 1, at - head.len())
        }
    }
}

/// Every pixel of a region whose tile holds pixels is read back from where it lies on the page.
pub proof fn law_readback_reads_every_pixel_where_it_lies(
    revision: DocumentRevision,
    capture: CapturePlanModel,
    states: Seq<GpuMementoResidentState>,
    max: u64,
    plan: ReadbackPlanModel,
    i: int,
    x: int,
    y: int,
)
    requires
        readback_plan(revision, capture, states, max) == Ok::<
            ReadbackPlanModel,
            GpuMirrorPlanError,
        >(plan),
        forall|j: int|
            0 <= j < capture.regions.len() ==> region_holds_pixels(#[trigger] capture.regions[j]),
        0 <= i < capture.regions.len(),
        states[i].document_initialized,
        capture.regions[i].local_bounds@.contains(x, y),
    ensures
        plan_reads(plan, capture.regions[i], x, y),
        plan.revision == revision,
        plan.layout == capture.layout,
        states[i].key == capture.regions[i].key,
        states[i].slot == capture.regions[i].slot,
{
    law_batches_share_the_pieces_within_their_budget(revision, capture, states, max, plan);
    let n = states.len() as int;
    let pieces = collected_pieces(capture.regions, states, max as int, n)->Ok_0;
    assert(region_holds_pixels(capture.regions[i]));
    lemma_no_region_error(capture.regions, states, max as int, n, i);
    let k = lemma_piece_reads(capture.regions[i], max as int, x, y);
    let at = lemma_collected_reads(capture.regions, states, max as int, n, i, k);
    let place = lemma_batched_item(plan.batches, at);
    assert(batched_pieces(plan.batches)[at] == unplaced(pieces[at]));
    assert(copy_reads(plan.batches[place.0].regions[place.1], capture.regions[i], x, y));
}

proof fn lemma_no_region_error(
    regions: Seq<GpuUndoCopyRegion>,
    states: Seq<GpuMementoResidentState>,
    max: int,
    n: int,
    i: int,
)
    requires
        0 <= i < n <= regions.len(),
        collected_pieces(regions, states, max, n) is Ok,
    ensures
        region_error(regions, states, max, i) is None,
    decreases n,
{
    if i < n - 1 {
        lemma_no_region_error(regions, states, max, n - 1, i);
    }
}

/// A region whose tile holds no pixels is named as empty, and nothing of it is copied.
pub proof fn law_readback_names_empty_tiles(
    revision: DocumentRevision,
    capture: CapturePlanModel,
    states: Seq<GpuMementoResidentState>,
    max: u64,
    plan: ReadbackPlanModel,
    i: int,
)
    requires
        readback_plan(revision, capture, states, max) == Ok::<
            ReadbackPlanModel,
            GpuMirrorPlanError,
        >(plan),
        forall|j: int|
            0 <= j < capture.regions.len() ==> region_holds_pixels(#[trigger] capture.regions[j]),
        0 <= i < capture.regions.len(),
        !states[i].document_initialized,
    ensures
        exists|b: int, q: int|
            #![trigger plan.batches[b].regions[q]]
            {
                &&& 0 <= b < plan.batches.len()
                &&& 0 <= q < plan.batches[b].regions.len()
                &&& !plan.batches[b].regions[q].initialized
                &&& plan.batches[b].regions[q].key == capture.regions[i].key
                &&& plan.batches[b].regions[q].slot == capture.regions[i].slot
                &&& plan.batches[b].regions[q].local_bounds == capture.regions[i].local_bounds
                &&& plan.batches[b].regions[q].spec_byte_len() == 0
            },
{
    law_batches_share_the_pieces_within_their_budget(revision, capture, states, max, plan);
    let n = states.len() as int;
    let pieces = collected_pieces(capture.regions, states, max as int, n)->Ok_0;
    let at = lemma_collected_reads(capture.regions, states, max as int, n, i, 0);
    let place = lemma_batched_item(plan.batches, at);
    assert(batched_pieces(plan.batches)[at] == unplaced(pieces[at]));
    let copy = plan.batches[place.0].regions[place.1];
    assert(unplaced(copy) == unplaced(pieces[at]));
    assert(copy.key == pieces[at].key);
}

/// How many bytes the first `q` copies of a batch bring.
pub open spec fn bytes_before(regions: Seq<GpuMirrorCopyRegion>, q: int) -> int
    decreases q,
{
    if q <= 0 {
        0
    } else {
        bytes_before(regions, q - 1) + if regions[q - 1].initialized {
            regions[q - 1].bytes_per_row * regions[q - 1].extent[1]
        } else {
            0
        }
    }
}

proof fn lemma_bytes_before(a: Seq<GpuMirrorCopyRegion>, b: Seq<GpuMirrorCopyRegion>, q: int)
    requires
        q <= a.len(),
        q <= b.len(),
        forall|i: int| 0 <= i < q ==> #[trigger] a[i] == b[i],
    ensures
        bytes_before(a, q) == bytes_before(b, q),
    decreases q,
{
    if q > 0 {
        lemma_bytes_before(a, b, q - 1);
        assert(a[q - 1] == b[q - 1]);
    }
}

/// The copies of a batch lie one after the other in its buffer, from its start to its end, and those
/// without pixels have no place in it.
pub open spec fn batch_is_packed(batch: BatchPlanModel) -> bool {
    &&& forall|q: int|
        #![trigger batch.regions[q]]
        0 <= q < batch.regions.len() && batch.regions[q].initialized
            ==> batch.regions[q].buffer_offset is Some && batch.regions[q].buffer_offset->0
            == bytes_before(batch.regions, q)
    &&& batch.byte_len == bytes_before(batch.regions, batch.regions.len() as int)
}

proof fn lemma_packed_tightly(
    layout: AtlasLayout,
    revision: DocumentRevision,
    pieces: Seq<GpuMirrorCopyRegion>,
    max: int,
)
    requires
        packed(layout, revision, pieces, max) is Ok,
        forall|k: int| 0 <= k < pieces.len() ==> 0 <= (#[trigger] pieces[k]).spec_byte_len(),
    ensures
        forall|b: int|
            #![trigger (packed(layout, revision, pieces, max)->Ok_0)[b]]
            0 <= b < (packed(layout, revision, pieces, max)->Ok_0).len() ==> {
                let batch = (packed(layout, revision, pieces, max)->Ok_0)[b];
                &&& batch_is_packed(batch)
                &&& 0 <= batch.byte_len <= u64::MAX
                &&& batch.revision == revision
                &&& batch.layout == layout
                &&& batch.index == b
            },
    decreases pieces.len(),
{
    if pieces.len() > 0 {
        let rest = pieces.drop_last();
        let last = pieces.last();
        assert forall|k: int| 0 <= k < rest.len() implies 0 <= (
        #[trigger] rest[k]).spec_byte_len() by {
            assert(pieces[k] == rest[k]);
        }
        assert(pieces[pieces.len() - 1] == last);
        lemma_packed_tightly(layout, revision, rest, max);
        let earlier = packed(layout, revision, rest, max)->Ok_0;
        let batches = packed(layout, revision, pieces, max)->Ok_0;
        let opened = if needs_batch(earlier, last, max) {
            earlier.push(empty_batch(layout, revision, earlier.len() as int))
        } else {
            earlier
        };
        let open = opened.last();
        if !needs_batch(earlier, last, max) {
            assert(earlier[earlier.len() - 1] == open);
        }
        assert(batch_is_packed(open));
        let filled = with_piece(open, last);
        let n = open.regions.len() as int;
        lemma_bytes_before(open.regions, filled.regions, n);
        assert(batch_is_packed(filled)) by {
            assert forall|q: int|
                #![trigger filled.regions[q]]
                0 <= q < filled.regions.len()
                    && filled.regions[q].initialized implies filled.regions[q].buffer_offset is Some
                && filled.regions[q].buffer_offset->0 == bytes_before(filled.regions, q) by {
                if q < n {
                    assert(filled.regions[q] == open.regions[q]);
                    lemma_bytes_before(open.regions, filled.regions, q);
                }
            }
        }
        assert forall|b: int| #![trigger batches[b]] 0 <= b < batches.len() implies {
            let batch = batches[b];
            &&& batch_is_packed(batch)
            &&& 0 <= batch.byte_len <= u64::MAX
            &&& batch.revision == revision
            &&& batch.layout == layout
            &&& batch.index == b
        } by {
            if b < batches.len() - 1 {
                assert(batches[b] == earlier[b]);
            } else {
                assert(batches[b] == filled);
            }
        }
    }
}

/// How many bytes the batches bring together.
pub open spec fn all_bytes(batches: Seq<BatchPlanModel>) -> int
    decreases batches.len(),
{
    if batches.len() == 0 {
        0
    } else {
        all_bytes(batches.drop_last()) + bytes_before(
            batches.last().regions,
            batches.last().regions.len() as int,
        )
    }
}

/// In the buffer of each batch the copies lie one after the other without gaps, in their order, and
/// fill it; the batches are numbered from zero and belong to the revision.
pub proof fn law_readback_buffers_are_filled_in_order(
    revision: DocumentRevision,
    capture: CapturePlanModel,
    states: Seq<GpuMementoResidentState>,
    max: u64,
    plan: ReadbackPlanModel,
    b: int,
)
    requires
        readback_plan(revision, capture, states, max) == Ok::<
            ReadbackPlanModel,
            GpuMirrorPlanError,
        >(plan),
        forall|j: int|
            0 <= j < capture.regions.len() ==> region_holds_pixels(#[trigger] capture.regions[j]),
        0 <= b < plan.batches.len(),
    ensures
        batch_is_packed(plan.batches[b]),
        plan.batches[b].revision == revision,
        plan.batches[b].layout == capture.layout,
        plan.batches[b].index == b,
        plan.byte_len == all_bytes(plan.batches),
{
    let n = states.len() as int;
    let pieces = collected_pieces(capture.regions, states, max as int, n)->Ok_0;
    assert forall|k: int| 0 <= k < pieces.len() implies 0 <= (
    #[trigger] pieces[k]).spec_byte_len() by {
        let piece = pieces[k];
        assert(piece.bytes_per_row * piece.extent[1] >= 0) by (nonlinear_arith)
            requires
                piece.bytes_per_row >= 0,
                piece.extent[1] >= 0,
        ;
    }
    lemma_packed_tightly(capture.layout, revision, pieces, max as int);
    assert(plan.batches[b] == (packed(capture.layout, revision, pieces, max as int)->Ok_0)[b]);
    assert forall|c: int| 0 <= c < plan.batches.len() implies batch_is_packed(
        #[trigger] plan.batches[c],
    ) by {
        assert(plan.batches[c] == (packed(capture.layout, revision, pieces, max as int)->Ok_0)[c]);
    }
    lemma_all_bytes(plan.batches);
}

proof fn lemma_all_bytes(batches: Seq<BatchPlanModel>)
    requires
        forall|c: int| 0 <= c < batches.len() ==> batch_is_packed(#[trigger] batches[c]),
    ensures
        crate::gpu_document_mirror::batch_bytes(batches) == all_bytes(batches),
    decreases batches.len(),
{
    if batches.len() > 0 {
        let rest = batches.drop_last();
        assert forall|c: int| 0 <= c < rest.len() implies batch_is_packed(#[trigger] rest[c]) by {
            assert(rest[c] == batches[c]);
        }
        lemma_all_bytes(rest);
        assert(batches[batches.len() - 1] == batches.last());
    }
}

/// The number that four bytes spell, with the least significant byte first or last.
pub open spec fn spelled(bytes: Seq<u8>, at: int, little: bool) -> int {
    if little {
        bytes[at] + 0x100 * bytes[at + 1] + 0x1_0000 * bytes[at + 2] + 0x100_0000 * bytes[at + 3]
    } else {
        bytes[at + 3] + 0x100 * bytes[at + 2] + 0x1_0000 * bytes[at + 1] + 0x100_0000 * bytes[at]
    }
}

/// The pixel at a place of the bytes: red, green, blue and alpha, four bytes each.
pub open spec fn spells_pixel(bytes: Seq<u8>, at: int, little: bool, pixel: LinearRgba) -> bool {
    &&& pixel.r == spelled(bytes, at, little)
    &&& pixel.g == spelled(bytes, at + 4, little)
    &&& pixel.b == spelled(bytes, at + 8, little)
    &&& pixel.a == spelled(bytes, at + 12, little)
}

/// Each pixel of a patch is spelled by the sixteen bytes of its row and column behind the offset of
/// its region, in one byte order for the whole region; the patch keeps the key and the bounds. A
/// region without pixels gives a patch without pixels.
pub proof fn law_patch_spells_the_mapped_bytes(
    plan: BatchPlanModel,
    mapped: Seq<u8>,
    batch: PatchBatchModel,
    i: int,
)
    requires
        batch_read(plan, mapped, batch),
        0 <= i < plan.regions.len(),
        plan.regions[i].local_bounds@.nonempty(),
        plan.regions[i].bytes_per_row == 16 * (plan.regions[i].local_bounds@.max_x
            - plan.regions[i].local_bounds@.min_x),
    ensures
        batch.revision == plan.revision,
        batch.index == plan.index,
        batch.regions.len() == plan.regions.len(),
        batch.regions[i].key == plan.regions[i].key,
        batch.regions[i].bounds == plan.regions[i].local_bounds@,
        batch.regions[i].initialized == plan.regions[i].initialized,
        !plan.regions[i].initialized ==> batch.regions[i].pixels.len() == 0,
        plan.regions[i].initialized ==> exists|little: bool|
            #![trigger reads_rows(plan.regions[i], mapped, batch.regions[i].pixels, little)]
            reads_rows(plan.regions[i], mapped, batch.regions[i].pixels, little),
{
    let region = plan.regions[i];
    let patch = batch.regions[i];
    assert(region_read(region, mapped, batch.regions[i]));
    if region.initialized {
        let words = choose|words: Seq<[u32; 4]>| #[trigger]
            region_words(region, mapped, words) && decoded_region(region, Some(words)) == Some(
                patch,
            );
        let offset = region.buffer_offset->0 as int;
        let bytes = mapped.subrange(offset, offset + region.spec_byte_len());
        let little = words_read(bytes, words, true);
        assert(words_read(bytes, words, little));
        let bounds = region.local_bounds@;
        let width = bounds.width();
        assert(reads_rows(region, mapped, patch.pixels, little)) by {
            assert(words.len() == bounds.area());
            assert(patch.pixels.len() == words.len());
            assert forall|x: int, y: int| #[trigger]
                bounds.contains(x, y) implies spells_pixel(
                mapped,
                offset + (y - bounds.min_y) * region.bytes_per_row + 16 * (x - bounds.min_x),
                little,
                patch.pixels[(y - bounds.min_y) * width + (x - bounds.min_x)],
            ) by {
                let k = (y - bounds.min_y) * width + (x - bounds.min_x);
                lemma_grid_bound(width, bounds.height(), x - bounds.min_x, y - bounds.min_y);
                assert(bounds.height() * width == width * bounds.height()) by (nonlinear_arith);
                assert((y - bounds.min_y) * (16 * width) == 16 * ((y - bounds.min_y) * width))
                    by (nonlinear_arith);
                assert(patch.pixels[k] == pixel_of(words[k]));
                let w = words[k];
                assert(words[k][0] == w[0] && words[k][1] == w[1] && words[k][2] == w[2]
                    && words[k][3] == w[3]);
            }
        }
    }
}

/// The pixels of a region, row by row, as the bytes behind its offset spell them.
pub open spec fn reads_rows(
    region: GpuMirrorCopyRegion,
    mapped: Seq<u8>,
    pixels: Seq<LinearRgba>,
    little: bool,
) -> bool {
    let bounds = region.local_bounds@;
    let width = bounds.max_x - bounds.min_x;
    &&& region.buffer_offset is Some
    &&& pixels.len() == width * (bounds.max_y - bounds.min_y)
    &&& forall|x: int, y: int| #[trigger]
        bounds.contains(x, y) ==> spells_pixel(
            mapped,
            region.buffer_offset->0 + (y - bounds.min_y) * region.bytes_per_row + 16 * (x
                - bounds.min_x),
            little,
            pixels[(y - bounds.min_y) * width + (x - bounds.min_x)],
        )
}

} // verus!
