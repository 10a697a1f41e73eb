//! Commits that copy finished tiles into the document.

use crate::gpu_atlas::{AtlasSlot, LayerTileKey, ResidentWork};
use crate::gpu_document_target::{
    fresh, fresh_changes, list_tiles, memento_fails, memento_of, memento_possible, tile_work, with_fresh,
    ColorCommitStats, EncodedGpuDocumentCommit, GpuDocumentTarget, GpuDocumentTargetError,
    PendingCommit, PendingCommitModel, TargetModel,
};
use crate::gpu_document_undo::capture_planned;
use crate::gpu_layer_residents::{busy_error, place_error, LayerResident};
use crate::gpu_material::MaterialCopy;
use crate::gpu_round_target::{pages_with, ActiveRoundMaskTile};
use crate::keyed_map::Key;
use crate::raster::RectU32;
use vstd::prelude::*;

verus! {

pub open spec fn copy_tiles(copies: Seq<MaterialCopy>) -> Seq<ActiveRoundMaskTile> {
    Seq::new(copies.len(), |i: int| copies[i].destination)
}

pub open spec fn tile_places(tiles: Seq<ActiveRoundMaskTile>) -> Seq<LayerResident> {
    Seq::new(tiles.len(), |i: int| LayerResident { key: tiles[i].key, slot: tiles[i].slot })
}

/// How many pages are there once these tiles have theirs.
pub open spec fn pages_for(pages: nat, tiles: Seq<ActiveRoundMaskTile>) -> nat
    decreases tiles.len(),
{
    if tiles.len() == 0 {
        pages
    } else {
        pages_with(pages_for(pages, tiles.drop_last()), tiles.last().slot.page)
    }
}

/// What comes of encoding a commit that copies tiles.
pub open spec fn copy_commit_reported(
    before: TargetModel,
    tiles: Seq<ActiveRoundMaskTile>,
    result: Result<Option<EncodedGpuDocumentCommit>, GpuDocumentTargetError>,
    after: TargetModel,
) -> bool {
    let drawn = fresh(before.residents, tile_work(tiles));
    match busy_error(before) {
        Some(error) => {
            &&& result matches Err(found) && found == error
            &&& after == before
        },
        None => if tiles.len() == 0 {
            &&& result matches Ok(commit) && commit is None
            &&& after == before
        } else if let Some(error) = place_error(before, tile_places(tiles)) {
            &&& result matches Err(found) && found == error
            &&& after == before
        } else {
            match result {
                Ok(Some(commit)) => {
                    &&& tiles.len() <= u32::MAX
                    &&& before.next_commit < u64::MAX
                    &&& commit.wf()
                    &&& memento_possible(before.layout, tiles, before.limits.max_buffer_size)
                    &&& memento_of(before.layout, before.residents, tiles, commit@.memento)
                    &&& commit@.target_id == before.id
                    &&& commit@.serial == before.next_commit
                    &&& commit@.stats == (ColorCommitStats {
                        retained_pages: after.pages as u32,
                        render_passes: 0,
                        committed_slots: tiles.len() as u32,
                        cleared_slots: drawn.len() as u32,
                        bytes_written: 0,
                        undo_copy_regions: commit@.memento.plan.regions.len() as u32,
                        undo_blocks: commit@.memento.plan.block_count as u32,
                        undo_bytes: commit@.memento.plan.byte_len as u64,
                    })
                    &&& after == (TargetModel {
                        pages: pages_for(before.pages, tiles),
                        residents: with_fresh(before.residents, drawn),
                        pending_commit: Some(
                            PendingCommitModel {
                                serial: before.next_commit,
                                requires_memento: true,
                                changes: fresh_changes(before.residents, drawn),
                            },
                        ),
                        next_commit: (before.next_commit + 1) as u64,
                        ..before
                    })
                },
                Ok(None) => false,
                Err(error) => after == before && match error {
                    GpuDocumentTargetError::InstanceCountOverflow => tiles.len() > u32::MAX,
                    GpuDocumentTargetError::UndoPlan(error) => capture_planned(
                        before.layout,
                        tiles,
                        Err(error),
                    ),
                    GpuDocumentTargetError::UndoResource(error) => memento_fails(
                        before.layout,
                        tiles,
                        before.limits.max_buffer_size,
                        error,
                    ),
                    GpuDocumentTargetError::CommitSerialOverflow => {
                        &&& memento_possible(
                            before.layout,
                            tiles,
                            before.limits.max_buffer_size,
                        )
                        &&& before.next_commit == u64::MAX
                    },
                    _ => false,
                },
            }
        },
    }
}

fn list_destinations(copies: &Vec<MaterialCopy>) -> (tiles: Vec<ActiveRoundMaskTile>)
    ensures
        tiles@ == copy_tiles(copies@),
{
    let mut tiles: Vec<ActiveRoundMaskTile> = Vec::new();
    let mut i: usize = 0;
    while i < copies.len()
        invariant
            i <= copies@.len(),
            tiles@ == copy_tiles(copies@).subrange(0, i as int),
        decreases copies@.len() - i,
    {
        tiles.push(copies[i].destination);
        i += 1;
        assert(tiles@ =~= copy_tiles(copies@).subrange(0, i as int));
    }
    assert(tiles@ =~= copy_tiles(copies@));
    tiles
}

fn list_places(tiles: &Vec<ActiveRoundMaskTile>) -> (places: Vec<LayerResident>)
    ensures
        places@ == tile_places(tiles@),
{
    let mut places: Vec<LayerResident> = Vec::new();
    let mut i: usize = 0;
    while i < tiles.len()
        invariant
            i <= tiles@.len(),
            places@ == tile_places(tiles@).subrange(0, i as int),
        decreases tiles@.len() - i,
    {
        places.push(LayerResident { key: tiles[i].key, slot: tiles[i].slot });
        i += 1;
        assert(places@ =~= tile_places(tiles@).subrange(0, i as int));
    }
    assert(places@ =~= tile_places(tiles@));
    places
}

proof fn lemma_place(target: TargetModel, tiles: Seq<LayerResident>, i: int)
    requires
        place_error(target, tiles) is None,
        0 <= i < tiles.len(),
    ensures
        tiles[i].slot.page.0 < target.layout@.max_pages,
    decreases tiles.len(),
{
    if i < tiles.len() - 1 {
        lemma_place(target, tiles.drop_last(), i);
    }
}

proof fn lemma_fresh_fewer(
    residents: Map<AtlasSlot, LayerTileKey>,
    work: Seq<ResidentWork<RectU32>>,
)
    ensures
        fresh(residents, work).len() <= work.len(),
    decreases work.len(),
{
    if work.len() > 0 {
        lemma_fresh_fewer(residents, work.drop_last());
    }
}

impl GpuDocumentTarget {
    fn list_fresh(&self, work: &Vec<ResidentWork<RectU32>>) -> (drawn: Vec<ResidentWork<RectU32>>)
        requires
            self.wf(),
        ensures
            drawn@ == fresh(self@.residents, work@),
    {
        let mut drawn: Vec<ResidentWork<RectU32>> = Vec::new();
        let mut i: usize = 0;
        assert(work@.subrange(0, 0) =~= Seq::empty());
        while i < work.len()
            invariant
                self.wf(),
                i <= work@.len(),
                drawn@ == fresh(self@.residents, work@.subrange(0, i as int)),
            decreases work@.len() - i,
        {
            let item = work[i];
            assert(work@.subrange(0, i as int + 1).drop_last() =~= work@.subrange(0, i as int));
            let held = match self.initialized_resident(item.slot) {
                Some(key) => key.same(item.key),
                None => false,
            };
            if !held {
                drawn.push(item);
            }
            i += 1;
        }
        assert(work@.subrange(0, i as int) =~= work@);
        drawn
    }

    fn reach_pages(&mut self, tiles: &Vec<ActiveRoundMaskTile>)
        requires
            old(self).wf(),
            place_error(old(self)@, tile_places(tiles@)) is None,
        ensures
            final(self).wf(),
            final(self)@ == (TargetModel {
                pages: pages_for(old(self)@.pages, tiles@),
                ..old(self)@
            }),
    {
        let ghost before = self@;
        let maximum: u32 = self.layout.max_pages();
        let mut i: usize = 0;
        assert(tiles@.subrange(0, 0) =~= Seq::empty());
        while i < tiles.len()
            invariant
                before == old(self)@,
                place_error(before, tile_places(tiles@)) is None,
                i <= tiles@.len(),
                self.wf(),
                maximum == before.layout@.max_pages,
                self@ == (TargetModel {
                    pages: pages_for(before.pages, tiles@.subrange(0, i as int)),
                    ..before
                }),
            decreases tiles@.len() - i,
        {
            assert(tiles@.subrange(0, i as int + 1).drop_last() =~= tiles@.subrange(0, i as int));
            proof {
                lemma_place(before, tile_places(tiles@), i as int);
            }
            let page: usize = tiles[i].slot.page().get() as usize;
            if self.pages <= page {
                self.pages = page + 1;
            }
            i += 1;
        }
        assert(tiles@.subrange(0, i as int) =~= tiles@);
    }

    /// Encodes a commit that copies finished tiles, and keeps what they replace.
    pub fn encode_material_commit(&mut self, copies: &Vec<MaterialCopy>) -> (commit: Result<
        Option<EncodedGpuDocumentCommit>,
        GpuDocumentTargetError,
    >)
        requires
            old(self).wf(),
        ensures
            final(self).wf(),
            copy_commit_reported(old(self)@, copy_tiles(copies@), commit, final(self)@),
    {
        if self.pending_commit.is_some() {
            return Err(GpuDocumentTargetError::CommitAwaitingSubmission);
        }
        if self.pending_swap.is_some() {
            return Err(GpuDocumentTargetError::UndoSwapAwaitingSubmission);
        }
        let tiles = list_destinations(copies);
        if tiles.len() == 0 {
            return Ok(None);
        }
        let places = list_places(&tiles);
        match self.check_places(&places) {
            Ok(_) => {},
            Err(error) => {
                return Err(error);
            },
        }
        if tiles.len() > u32::MAX as usize {
            return Err(GpuDocumentTargetError::InstanceCountOverflow);
        }
        let memento = match self.capture_memento(&tiles) {
            Ok(memento) => memento,
            Err(error) => {
                return Err(error);
            },
        };
        if self.next_commit_serial == u64::MAX {
            return Err(GpuDocumentTargetError::CommitSerialOverflow);
        }
        let ghost before = self@;
        let serial: u64 = self.next_commit_serial;
        let work = list_tiles(&tiles);
        let drawn = self.list_fresh(&work);
        proof {
            lemma_fresh_fewer(self@.residents, work@);
        }
        self.reach_pages(&tiles);
        let changes = self.draw_fresh(&drawn);
        self.next_commit_serial = serial + 1;
        self.pending_commit = Some(PendingCommit { serial, requires_memento: true, changes });
        let stats = ColorCommitStats {
            retained_pages: self.pages as u32,
            render_passes: 0,
            committed_slots: tiles.len() as u32,
            cleared_slots: drawn.len() as u32,
            bytes_written: 0,
            undo_copy_regions: memento.plan().regions().len() as u32,
            undo_blocks: memento.block_count(),
            undo_bytes: memento.byte_len(),
        };
        Ok(Some(EncodedGpuDocumentCommit { target_id: self.id, stats, serial, memento }))
    }
}

} // verus!
