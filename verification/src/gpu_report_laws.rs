//! What commits, batches and surfaces report, when they are refused, and which pages they keep.

use crate::gpu_atlas::{
    page_batches, AtlasGeometry, AtlasPageBatch, AtlasPageId, LayerTileKey, ResidentWork,
};
use crate::gpu_document_target::{
    all_fresh, commit_encodes, commit_is_empty, commit_refusal, commit_slots, commit_token_error,
    committed, fresh, slots_of, swap_token_error, CommitEncoding, GpuDocumentTargetId, TargetModel,
};
use crate::gpu_material::{pages_opened, refreshed, SurfaceModel, SurfaceRefresh};
use crate::gpu_round::{RoundBatchModel, RoundMaskInstance};
use crate::gpu_round_target::{
    encode_reported, flat_work, ActiveRoundMaskTile, RoundMaskEncoding, RoundMaskTargetError,
    RoundTargetModel,
};
use crate::raster::RectU32;
use crate::stroke::{MaterialModel, PaintOperation};
use vstd::prelude::*;

verus! {

/// A surface is loaded where the brush is; otherwise it is erased or painted as the stroke does.
pub proof fn law_surface_does_what_the_stroke_does(
    before: SurfaceModel,
    geometry: AtlasGeometry,
    places: Seq<Option<LayerTileKey>>,
    target: TargetModel,
    mask: RoundTargetModel,
    operation: PaintOperation,
    loaded: bool,
    refresh: SurfaceRefresh,
    after: SurfaceModel,
)
    requires
        refreshed(before, geometry, places, target, mask, operation, loaded, refresh, after),
    ensures
        loaded ==> refresh.mode is Load,
        !loaded && operation == PaintOperation::DestinationOut ==> refresh.mode is Erase,
        !loaded && operation == PaintOperation::SourceOver ==> refresh.mode is Paint,
{
}

proof fn lemma_pages_opened(pages: Map<AtlasPageId, ()>, opened: Seq<AtlasPageId>, page: AtlasPageId)
    ensures
        pages_opened(pages, opened).contains_key(page) == (pages.contains_key(page)
            || opened.contains(page)),
    decreases opened.len(),
{
    if opened.len() > 0 {
        let rest = opened.drop_last();
        lemma_pages_opened(pages, rest, page);
        if opened.contains(page) {
            let i = choose|i: int| 0 <= i < opened.len() && opened[i] == page;
            if i < rest.len() {
                assert(rest[i] == page);
            }
        }
        if rest.contains(page) {
            let i = choose|i: int| 0 <= i < rest.len() && rest[i] == page;
            assert(opened[i] == page);
        }
        assert(opened[opened.len() - 1] == opened.last());
    }
}

/// The pages of a surface are counted up to the last one: every page that it has, or gets, is counted,
/// and the count never goes back.
pub proof fn law_surface_spans_its_pages(
    before: SurfaceModel,
    geometry: AtlasGeometry,
    places: Seq<Option<LayerTileKey>>,
    target: TargetModel,
    mask: RoundTargetModel,
    operation: PaintOperation,
    loaded: bool,
    refresh: SurfaceRefresh,
    after: SurfaceModel,
    page: AtlasPageId,
)
    requires
        refreshed(before, geometry, places, target, mask, operation, loaded, refresh, after),
        before.pages.contains_key(page) ==> page.0 < before.page_span,
        after.pages.contains_key(page),
    ensures
        page.0 < after.page_span,
        after.page_span >= before.page_span,
        after.page_span > before.page_span ==> refresh.opened@.len() > 0 && after.page_span
            == refresh.opened@.last().0 + 1,
{
    let opened = refresh.opened@;
    lemma_pages_opened(before.pages, opened, page);
    if opened.contains(page) {
        let i = choose|i: int| 0 <= i < opened.len() && opened[i] == page;
        if i < opened.len() - 1 {
            assert(opened[i].0 < opened[opened.len() - 1].0);
        }
    }
}

/// How much work lies on the pages together.
pub open spec fn all_work<T>(pages: Seq<AtlasPageBatch<T>>) -> int
    decreases pages.len(),
{
    if pages.len() == 0 {
        0
    } else {
        all_work(pages.drop_last()) + pages.last().work@.len()
    }
}

proof fn lemma_slot_counts(target: TargetModel, pages: Seq<AtlasPageBatch<RectU32>>)
    ensures
        commit_slots(target.residents, pages).len() == all_fresh(target.residents, pages).len()
            + all_work(pages),
        all_work(pages) >= 0,
    decreases pages.len(),
{
    if pages.len() > 0 {
        lemma_slot_counts(target, pages.drop_last());
        let work = pages.last().work@;
        assert(slots_of(work).len() == work.len());
        assert(slots_of(fresh(target.residents, work)).len() == fresh(
            target.residents,
            work,
        ).len());
    }
}

/// A commit reports one drawn place for each tile, the places that it cleared first, one pass for each
/// page, and what it saved for undo.
pub proof fn law_commit_reports_its_work(
    target: TargetModel,
    tiles: Seq<ActiveRoundMaskTile>,
    pages: Seq<AtlasPageBatch<RectU32>>,
    capture_undo: bool,
    encoding: CommitEncoding,
)
    requires
        commit_encodes(target, tiles, pages, capture_undo, encoding),
        encoding.slots@.len() <= u32::MAX,
        pages.len() <= u32::MAX,
    ensures
        encoding.stats.committed_slots == all_work(pages),
        encoding.stats.committed_slots + encoding.stats.cleared_slots == encoding.slots@.len(),
        encoding.stats.render_passes == pages.len(),
        encoding.memento is None <==> !capture_undo,
        encoding.memento is None ==> encoding.stats.undo_bytes == 0
            && encoding.stats.undo_copy_regions == 0 && encoding.stats.undo_blocks == 0,
        encoding.memento matches Some(memento) ==> encoding.stats.undo_bytes
            == memento@.plan.byte_len as u64 && encoding.stats.undo_copy_regions
            == memento@.plan.regions.len() as u32 && encoding.stats.undo_blocks
            == memento@.plan.block_count as u32,
        encoding.serial == Some(target.next_commit),
{
    lemma_slot_counts(target, pages);
}

/// After a commit the target has every page that it draws on, within the pages of its layout; the
/// commit waits to be submitted under its number, and the next has another.
pub proof fn law_commit_keeps_its_pages(
    before: TargetModel,
    mask: RoundTargetModel,
    work: Seq<ResidentWork<RectU32>>,
    pages: Seq<AtlasPageBatch<RectU32>>,
    capture_undo: bool,
    after: TargetModel,
    k: int,
)
    requires
        committed(before, mask, pages, capture_undo, after),
        page_batches(work, pages),
        0 <= k < pages.len(),
    ensures
        pages[k].page.0 < after.pages,
        pages[k].page.0 < before.layout@.max_pages,
        pages[k].page.0 < mask.pages,
        after.pages >= before.pages,
        after.pages > before.pages ==> after.pages == pages.last().page.0 + 1,
        after.pending_commit is Some,
        (after.pending_commit->0).serial == before.next_commit,
        (after.pending_commit->0).requires_memento == capture_undo,
        after.next_commit == before.next_commit + 1,
        after.layout == before.layout,
        after.id == before.id,
{
    if k < pages.len() - 1 {
        assert(pages[k].page.0 < pages[pages.len() - 1].page.0);
    }
}

/// A commit is taken just where nothing waits to be submitted, the stroke has ended, the layouts are the
/// same and the paint covers. It is empty just where the paint leaves no mark or no tile was drawn on.
pub proof fn law_commit_waits_for_the_stroke(
    target: TargetModel,
    mask: RoundTargetModel,
    material: MaterialModel,
)
    ensures
        commit_refusal(target, mask, material) is None <==> {
            &&& target.pending_commit is None
            &&& target.pending_swap is None
            &&& !mask.active
            &&& !mask.pending
            &&& mask.layout@ == target.layout@
            &&& material.opacity % 0x8000_0000 == 0 || material.flow % 0x8000_0000 == 0
                || material.flow == 0x3f80_0000
        },
        commit_is_empty(mask, material) <==> {
            ||| material.opacity % 0x8000_0000 == 0
            ||| material.flow % 0x8000_0000 == 0
            ||| mask.active_tiles.dom().len() == 0
        },
{
}

/// A token is good just for the target that gave it, and for the commit or swap that waits.
pub proof fn law_tokens_are_good_once(target: TargetModel, id: GpuDocumentTargetId, serial: u64)
    ensures
        commit_token_error(target, id, serial) is None <==> id == target.id
            && target.pending_commit is Some && (target.pending_commit->0).serial == serial,
        swap_token_error(target, id, serial) is None <==> id == target.id && target.pending_swap
            is Some && (target.pending_swap->0).serial == serial,
{
}

proof fn lemma_flat_len(pages: Seq<AtlasPageBatch<RoundMaskInstance>>)
    ensures
        flat_work(pages).len() == all_work(pages),
    decreases pages.len(),
{
    if pages.len() > 0 {
        lemma_flat_len(pages.drop_last());
    }
}

/// A batch on a mask reports one instance for each piece of work, the places that it cleared, and one
/// pass for each page; the mask has every page that the batch draws on.
pub proof fn law_mask_batch_reports_its_work(
    before: RoundTargetModel,
    batch: RoundBatchModel,
    encoding: RoundMaskEncoding,
    after: RoundTargetModel,
    work: Seq<ResidentWork<RoundMaskInstance>>,
    k: int,
)
    requires
        encode_reported(
            before,
            batch,
            Ok::<RoundMaskEncoding, RoundMaskTargetError>(encoding),
            after,
        ),
        page_batches(work, batch.pages),
        batch.pages.len() <= u32::MAX,
        0 <= k < batch.pages.len(),
    ensures
        before.active,
        !before.pending,
        batch.layout@ == before.layout@,
        encoding.stats.round_instances == all_work(batch.pages),
        encoding.stats.cleared_slots == encoding.cleared@.len(),
        encoding.stats.render_passes == batch.pages.len(),
        encoding.stats.retained_pages == after.pages,
        batch.pages[k].page.0 < after.pages,
        batch.pages[k].page.0 < before.layout@.max_pages,
        after.pages >= before.pages,
        after.pages > before.pages ==> after.pages == batch.pages.last().page.0 + 1,
        after.pending,
        after.active,
{
    lemma_flat_len(batch.pages);
    let pages = batch.pages;
    if k < pages.len() - 1 {
        assert(pages[k].page.0 < pages[pages.len() - 1].page.0);
    }
}

} // verus!
