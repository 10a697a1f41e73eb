//! Whole layers in the atlas and on the device.

use crate::document::LayerId;
use crate::gpu_atlas::{AtlasGeometry, AtlasSlot, LayerTileKey, SparseAtlasPlanner};
use crate::gpu_document_target::{GpuDocumentTarget, GpuDocumentTargetError, TargetModel};
use crate::gpu_round_target::pages_with;
use crate::keyed_map::{value_of, Key};
use crate::ordering::Ranked;
use crate::raster_layer::TilePixels;
use vstd::prelude::*;

verus! {

/// A tile and its place.
#[derive(Clone, Copy, Debug, PartialEq, Eq)]
pub struct LayerResident {
    pub key: LayerTileKey,
    pub slot: AtlasSlot,
}

impl Ranked for LayerResident {
    /// Row by row.
    open spec fn le(self, other: Self) -> bool {
        if self.key.tile.y != other.key.tile.y {
            self.key.tile.y < other.key.tile.y
        } else {
            self.key.tile.x <= other.key.tile.x
        }
    }

    proof fn le_total(first: Self, second: Self) {
    }

    proof fn le_transitive(first: Self, second: Self, third: Self) {
    }

    fn not_after(&self, other: &Self) -> (le: bool) {
        if self.key.tile.y != other.key.tile.y {
            self.key.tile.y < other.key.tile.y
        } else {
            self.key.tile.x <= other.key.tile.x
        }
    }
}

/// The tiles of a layer among the first `n` places, with their places.
pub open spec fn layer_residents(
    geometry: AtlasGeometry,
    places: Seq<Option<LayerTileKey>>,
    layer: LayerId,
    n: int,
) -> Seq<LayerResident>
    decreases n,
{
    if n <= 0 {
        Seq::empty()
    } else {
        let rest = layer_residents(geometry, places, layer, n - 1);
        match places[n - 1] {
            Some(key) => if key.layer == layer {
                rest.push(LayerResident { key, slot: geometry.slot(n - 1) })
            } else {
                rest
            },
            None => rest,
        }
    }
}

/// The places without those of one layer.
pub open spec fn places_without(places: Seq<Option<LayerTileKey>>, layer: LayerId) -> Seq<
    Option<LayerTileKey>,
> {
    Seq::new(
        places.len(),
        |i: int|
            match places[i] {
                Some(key) => if key.layer == layer {
                    None
                } else {
                    Some(key)
                },
                None => None,
            },
    )
}

impl SparseAtlasPlanner {
    /// The tiles of one layer, with their places.
    pub fn layer_residents(&self, layer: LayerId) -> (residents: Vec<LayerResident>)
        requires
            self.wf(),
        ensures
            residents@ == layer_residents(
                self.geometry(),
                self.places(),
                layer,
                self.places().len() as int,
            ),
    {
        let mut residents: Vec<LayerResident> = Vec::new();
        let mut i: usize = 0;
        while i < self.slots.len()
            invariant
                self.wf(),
                i <= self.slots@.len(),
                residents@ == layer_residents(
                    self.geometry(),
                    self.places(),
                    layer,
                    i as int,
                ),
            decreases self.slots@.len() - i,
        {
            if let Some(key) = self.slots[i] {
                if key.layer.0 == layer.0 {
                    let capacity: u32 = self.layout.total_capacity();
                    residents.push(LayerResident { key, slot: self.layout.slot(i as u32) });
                }
            }
            i += 1;
        }
        residents
    }

    /// Gives up the places of one layer, and says which tiles were there.
    pub fn release_layer(&mut self, layer: LayerId) -> (released: Vec<LayerResident>)
        requires
            old(self).wf(),
        ensures
            final(self).wf(),
            final(self).geometry() == old(self).geometry(),
            final(self).places() == places_without(old(self).places(), layer),
            released@ == layer_residents(
                old(self).geometry(),
                old(self).places(),
                layer,
                old(self).places().len() as int,
            ),
    {
        let released = self.layer_residents(layer);
        let ghost before = self.slots@;
        let ghost target = places_without(before, layer);
        let mut i: usize = 0;
        while i < self.slots.len()
            invariant
                self.layout == old(self).layout,
                before == old(self).slots@,
                target == places_without(before, layer),
                self.slots@.len() == before.len(),
                i <= before.len(),
                forall|k: int| 0 <= k < i ==> #[trigger] self.slots@[k] == target[k],
                forall|k: int| i <= k < before.len() ==> #[trigger] self.slots@[k] == before[k],
            decreases before.len() - i,
        {
            let drop = match self.slots[i] {
                Some(key) => key.layer.0 == layer.0,
                None => false,
            };
            assert(self.slots@[i as int] == before[i as int]);
            if drop {
                self.slots.set(i, None);
            }
            i += 1;
        }
        assert(self.slots@ =~= target);
        proof {
            assert forall|a: int, b: int|
                #![trigger self.slots@[a], self.slots@[b]]
                0 <= a < b < self.slots@.len() && self.slots@[a] is Some implies self.slots@[a]
                != self.slots@[b] by {
                assert(before[a] == self.slots@[a]);
                assert(before[a] != before[b]);
            }
        }
        released
    }
}

/// A tile that is to be copied on the device.
#[derive(Clone, Copy, Debug, PartialEq, Eq)]
pub struct GpuDocumentResidentClone {
    pub source_key: LayerTileKey,
    pub source_slot: AtlasSlot,
    pub destination_key: LayerTileKey,
    pub destination_slot: AtlasSlot,
}

/// A tile that is to be brought to the device.
#[derive(Debug)]
pub struct GpuDocumentResidentUpload {
    pub key: LayerTileKey,
    pub slot: AtlasSlot,
    pub pixels: TilePixels,
}

#[derive(Clone, Copy, Debug, PartialEq, Eq, Structural)]
pub struct GpuDocumentResidentCloneStats {
    pub tiles: usize,
}

#[derive(Clone, Copy, Debug, PartialEq, Eq, Structural)]
pub struct GpuDocumentResidentUploadStats {
    pub tiles: usize,
}

pub open spec fn clone_destinations(clones: Seq<GpuDocumentResidentClone>) -> Seq<LayerResident> {
    Seq::new(
        clones.len(),
        |i: int|
            LayerResident { key: clones[i].destination_key, slot: clones[i].destination_slot },
    )
}

pub open spec fn upload_destinations(uploads: Seq<GpuDocumentResidentUpload>) -> Seq<
    LayerResident,
> {
    Seq::new(
        uploads.len(),
        |i: int| LayerResident { key: uploads[i].key, slot: uploads[i].slot },
    )
}

/// The target once the tiles hold pixels.
pub open spec fn installed(target: TargetModel, tiles: Seq<LayerResident>) -> TargetModel
    decreases tiles.len(),
{
    if tiles.len() == 0 {
        target
    } else {
        let rest = installed(target, tiles.drop_last());
        TargetModel {
            pages: pages_with(rest.pages, tiles.last().slot.page),
            residents: rest.residents.insert(tiles.last().slot, tiles.last().key),
            ..rest
        }
    }
}

/// Why no tile can be changed now, if none can.
pub open spec fn busy_error(target: TargetModel) -> Option<GpuDocumentTargetError> {
    if target.pending_commit is Some {
        Some(GpuDocumentTargetError::CommitAwaitingSubmission)
    } else if target.pending_swap is Some {
        Some(GpuDocumentTargetError::UndoSwapAwaitingSubmission)
    } else {
        None
    }
}

/// The first place that lies on no page.
pub open spec fn place_error(target: TargetModel, tiles: Seq<LayerResident>) -> Option<
    GpuDocumentTargetError,
>
    decreases tiles.len(),
{
    if tiles.len() == 0 {
        None
    } else {
        match place_error(target, tiles.drop_last()) {
            Some(error) => Some(error),
            None => if tiles.last().slot.page.0 >= target.layout@.max_pages {
                Some(
                    GpuDocumentTargetError::PageOutOfRange {
                        page: tiles.last().slot.page.0,
                        maximum_pages: target.layout@.max_pages as u32,
                    },
                )
            } else {
                None
            },
        }
    }
}

/// The first tile that is not where it is to be copied from.
pub open spec fn source_error(target: TargetModel, clones: Seq<GpuDocumentResidentClone>) -> Option<
    GpuDocumentTargetError,
>
    decreases clones.len(),
{
    if clones.len() == 0 {
        None
    } else {
        match source_error(target, clones.drop_last()) {
            Some(error) => Some(error),
            None => {
                let clone = clones.last();
                let actual = value_of(target.residents, clone.source_slot);
                if actual != Some(clone.source_key) {
                    Some(
                        GpuDocumentTargetError::ResidentCloneSourceMismatch {
                            slot: clone.source_slot,
                            expected: clone.source_key,
                            actual,
                        },
                    )
                } else {
                    None
                }
            },
        }
    }
}

/// Why tiles are not copied, if they are not.
pub open spec fn clone_error(target: TargetModel, clones: Seq<GpuDocumentResidentClone>) -> Option<
    GpuDocumentTargetError,
> {
    match busy_error(target) {
        Some(error) => Some(error),
        None => match source_error(target, clones) {
            Some(error) => Some(error),
            None => place_error(target, clone_destinations(clones)),
        },
    }
}

/// Why tiles are not brought to the device, if they are not.
pub open spec fn upload_error(
    target: TargetModel,
    uploads: Seq<GpuDocumentResidentUpload>,
) -> Option<GpuDocumentTargetError> {
    match busy_error(target) {
        Some(error) => Some(error),
        None => place_error(target, upload_destinations(uploads)),
    }
}

proof fn lemma_place_error(target: TargetModel, tiles: Seq<LayerResident>, n: int)
    requires
        0 <= n <= tiles.len(),
        place_error(target, tiles.subrange(0, n)) is Some,
    ensures
        place_error(target, tiles) == place_error(target, tiles.subrange(0, n)),
    decreases tiles.len() - n,
{
    if n == tiles.len() {
        assert(tiles.subrange(0, n) =~= tiles);
    } else {
        assert(tiles.subrange(0, n + 1).drop_last() =~= tiles.subrange(0, n));
        lemma_place_error(target, tiles, n + 1);
    }
}

proof fn lemma_source_error(target: TargetModel, clones: Seq<GpuDocumentResidentClone>, n: int)
    requires
        0 <= n <= clones.len(),
        source_error(target, clones.subrange(0, n)) is Some,
    ensures
        source_error(target, clones) == source_error(target, clones.subrange(0, n)),
    decreases clones.len() - n,
{
    if n == clones.len() {
        assert(clones.subrange(0, n) =~= clones);
    } else {
        assert(clones.subrange(0, n + 1).drop_last() =~= clones.subrange(0, n));
        lemma_source_error(target, clones, n + 1);
    }
}

impl GpuDocumentTarget {
    pub(crate) fn check_places(&self, tiles: &Vec<LayerResident>) -> (checked: Result<
        (),
        GpuDocumentTargetError,
    >)
        ensures
            match checked {
                Ok(_) => place_error(self@, tiles@) is None,
                Err(error) => place_error(self@, tiles@) == Some(error),
            },
    {
        let maximum_pages: u32 = self.layout.max_pages();
        let mut i: usize = 0;
        assert(tiles@.subrange(0, 0) =~= Seq::empty());
        while i < tiles.len()
            invariant
                maximum_pages == self@.layout@.max_pages,
                i <= tiles@.len(),
                place_error(self@, tiles@.subrange(0, i as int)) is None,
            decreases tiles@.len() - i,
        {
            let page: u32 = tiles[i].slot.page().get();
            assert(tiles@.subrange(0, i as int + 1).drop_last() =~= tiles@.subrange(0, i as int));
            if page >= maximum_pages {
                proof {
                    lemma_place_error(self@, tiles@, i as int + 1);
                }
                return Err(GpuDocumentTargetError::PageOutOfRange { page, maximum_pages });
            }
            i += 1;
        }
        assert(tiles@.subrange(0, i as int) =~= tiles@);
        Ok(())
    }

    fn install(&mut self, tiles: &Vec<LayerResident>)
        requires
            old(self).wf(),
            place_error(old(self)@, tiles@) is None,
        ensures
            final(self).wf(),
            final(self)@ == installed(old(self)@, tiles@),
    {
        let ghost before = self@;
        let mut i: usize = 0;
        assert(tiles@.subrange(0, 0) =~= Seq::empty());
        while i < tiles.len()
            invariant
                before == old(self)@,
                place_error(before, tiles@) is None,
                i <= tiles@.len(),
                self.wf(),
                self@ == installed(before, tiles@.subrange(0, i as int)),
                self@.layout == before.layout,
            decreases tiles@.len() - i,
        {
            let tile = tiles[i];
            let page: usize = tile.slot.page().get() as usize;
            proof {
                assert(tiles@.subrange(0, i as int + 1).drop_last() =~= tiles@.subrange(
                    0,
                    i as int,
                ));
                lemma_places_ok(before, tiles@, i as int);
            }
            if self.pages <= page {
                let max_pages: u32 = self.layout.max_pages();
                self.pages = page + 1;
            }
            self.initialized_residents.insert(tile.slot, tile.key);
            i += 1;
        }
        assert(tiles@.subrange(0, i as int) =~= tiles@);
    }

    /// Copies tiles on the device to other places.
    pub fn clone_residents(&mut self, clones: &Vec<GpuDocumentResidentClone>) -> (stats: Result<
        GpuDocumentResidentCloneStats,
        GpuDocumentTargetError,
    >)
        requires
            old(self).wf(),
        ensures
            final(self).wf(),
            match stats {
                Ok(stats) => {
                    &&& clone_error(old(self)@, clones@) is None
                    &&& final(self)@ == installed(old(self)@, clone_destinations(clones@))
                    &&& stats.tiles == clones@.len()
                },
                Err(error) => clone_error(old(self)@, clones@) == Some(error) && *final(self)
                    == *old(self),
            },
    {
        if self.pending_commit.is_some() {
            return Err(GpuDocumentTargetError::CommitAwaitingSubmission);
        }
        if self.pending_swap.is_some() {
            return Err(GpuDocumentTargetError::UndoSwapAwaitingSubmission);
        }
        let mut tiles: Vec<LayerResident> = Vec::new();
        let mut i: usize = 0;
        assert(clones@.subrange(0, 0) =~= Seq::empty());
        while i < clones.len()
            invariant
                self.wf(),
                *self == *old(self),
                busy_error(self@) is None,
                i <= clones@.len(),
                source_error(self@, clones@.subrange(0, i as int)) is None,
                tiles@ == clone_destinations(clones@).subrange(0, i as int),
            decreases clones@.len() - i,
        {
            let clone = clones[i];
            let actual = self.initialized_resident(clone.source_slot);
            assert(clones@.subrange(0, i as int + 1).drop_last() =~= clones@.subrange(0, i as int));
            let found = match actual {
                Some(key) => key.same(clone.source_key),
                None => false,
            };
            if !found {
                proof {
                    lemma_source_error(self@, clones@, i as int + 1);
                }
                return Err(
                    GpuDocumentTargetError::ResidentCloneSourceMismatch {
                        slot: clone.source_slot,
                        expected: clone.source_key,
                        actual,
                    },
                );
            }
            tiles.push(LayerResident { key: clone.destination_key, slot: clone.destination_slot });
            i += 1;
            assert(tiles@ =~= clone_destinations(clones@).subrange(0, i as int));
        }
        assert(clones@.subrange(0, i as int) =~= clones@);
        assert(tiles@ =~= clone_destinations(clones@));
        match self.check_places(&tiles) {
            Ok(_) => {},
            Err(error) => {
                return Err(error);
            },
        }
        self.install(&tiles);
        Ok(GpuDocumentResidentCloneStats { tiles: clones.len() })
    }

    /// Brings tiles to the device.
    pub fn upload_residents(&mut self, uploads: &Vec<GpuDocumentResidentUpload>) -> (stats: Result<
        GpuDocumentResidentUploadStats,
        GpuDocumentTargetError,
    >)
        requires
            old(self).wf(),
        ensures
            final(self).wf(),
            match stats {
                Ok(stats) => {
                    &&& upload_error(old(self)@, uploads@) is None
                    &&& final(self)@ == installed(old(self)@, upload_destinations(uploads@))
                    &&& stats.tiles == uploads@.len()
                },
                Err(error) => upload_error(old(self)@, uploads@) == Some(error) && *final(self)
                    == *old(self),
            },
    {
        if self.pending_commit.is_some() {
            return Err(GpuDocumentTargetError::CommitAwaitingSubmission);
        }
        if self.pending_swap.is_some() {
            return Err(GpuDocumentTargetError::UndoSwapAwaitingSubmission);
        }
        let mut tiles: Vec<LayerResident> = Vec::new();
        let mut i: usize = 0;
        while i < uploads.len()
            invariant
                *self == *old(self),
                i <= uploads@.len(),
                tiles@ == upload_destinations(uploads@).subrange(0, i as int),
            decreases uploads@.len() - i,
        {
            tiles.push(LayerResident { key: uploads[i].key, slot: uploads[i].slot });
            i += 1;
            assert(tiles@ =~= upload_destinations(uploads@).subrange(0, i as int));
        }
        assert(tiles@ =~= upload_destinations(uploads@));
        match self.check_places(&tiles) {
            Ok(_) => {},
            Err(error) => {
                return Err(error);
            },
        }
        self.install(&tiles);
        Ok(GpuDocumentResidentUploadStats { tiles: uploads.len() })
    }
}

proof fn lemma_places_ok(target: TargetModel, tiles: Seq<LayerResident>, i: int)
    requires
        place_error(target, tiles) is None,
        0 <= i < tiles.len(),
    ensures
        tiles[i].slot.page.0 < target.layout@.max_pages,
    decreases tiles.len(),
{
    if i < tiles.len() - 1 {
        lemma_places_ok(target, tiles.drop_last(), i);
    }
}

} // verus!
