//! The stroke in progress on a resident document.

use crate::document::LayerId;
use crate::gpu_atlas::{
    allocate_all, first_free, lemma_capacity_bounds, lemma_first_free_is_free, slot_of_key,
    AtlasAllocation, AtlasError, AtlasGeometry, AtlasSlot, LayerTileKey, SparseAtlasPlanner,
};
use crate::gpu_document_history::pinned;
use crate::gpu_document_target::GpuDocumentTarget;
use crate::gpu_resident_document::{
    GpuResidentDocument, GpuResidentDocumentError, GpuResidentRoundStrokeId, ResidentModel,
};
use crate::gpu_round::{schedule_reported, RoundBounds, RoundMaskBatch, RoundMaskScheduler};
use crate::gpu_round_target::ActiveRoundMaskTile;
use crate::keyed_map::Key;
use crate::stroke::{RoundContact, RoundPathCommand};
use vstd::prelude::*;

verus! {

/// Where a tile lies.
pub open spec fn slot_at(
    geometry: AtlasGeometry,
    places: Seq<Option<LayerTileKey>>,
    key: LayerTileKey,
) -> Option<AtlasSlot> {
    match slot_of_key(places, key) {
        Some(index) => Some(geometry.slot(index)),
        None => None,
    }
}

impl ResidentModel {
    /// Why a stroke on `layer` cannot begin, if it cannot.
    pub open spec fn begin_error(
        self,
        target: crate::gpu_document_target::TargetModel,
        layer: LayerId,
    ) -> Option<GpuResidentDocumentError> {
        if let Some(error) = self.target_error(target.id) {
            Some(error)
        } else if let Some(error) = self.layout_error(target.layout) {
            Some(error)
        } else if layer != self.metadata.active {
            Some(
                GpuResidentDocumentError::ActiveRoundStrokeLayerMismatch {
                    expected: self.metadata.active,
                    actual: layer,
                },
            )
        } else if let Some(error) = self.stroke_error(None) {
            Some(error)
        } else if self.next_stroke == u64::MAX {
            Some(GpuResidentDocumentError::ActiveRoundStrokeIdExhausted)
        } else {
            None
        }
    }

    /// The layer of a stroke is not the one that is drawn on.
    pub open spec fn stroke_layer_error(
        self,
        id: GpuResidentRoundStrokeId,
        layer: LayerId,
    ) -> Option<GpuResidentDocumentError> {
        if let Some(error) = self.stroke_error(Some(id)) {
            Some(error)
        } else if layer != self.metadata.active {
            Some(
                GpuResidentDocumentError::ActiveRoundStrokeLayerMismatch {
                    expected: self.metadata.active,
                    actual: layer,
                },
            )
        } else {
            None
        }
    }

    /// The first of the new tiles that is no longer where it was put, or that the history
    /// holds.
    pub open spec fn moved_allocation(self, allocations: Seq<AtlasAllocation>) -> Option<
        GpuResidentDocumentError,
    >
        decreases allocations.len(),
    {
        if allocations.len() == 0 {
            None
        } else {
            match self.moved_allocation(allocations.drop_last()) {
                Some(error) => Some(error),
                None => {
                    let last = allocations.last();
                    let actual = slot_at(self.layout@, self.places, last.key);
                    if last.newly_allocated && (actual != Some(last.slot) || pinned(
                        self.history,
                        last.key,
                    )) {
                        Some(
                            GpuResidentDocumentError::ActiveRoundStrokeAllocationChanged {
                                key: last.key,
                                expected: last.slot,
                                actual,
                            },
                        )
                    } else {
                        None
                    }
                },
            }
        }
    }

    /// Why the tiles of a stroke cannot be given back, if they cannot.
    pub open spec fn rollback_error(
        self,
        id: GpuResidentRoundStrokeId,
        allocations: Seq<AtlasAllocation>,
    ) -> Option<GpuResidentDocumentError> {
        match self.stroke_error(Some(id)) {
            Some(error) => Some(error),
            None => self.moved_allocation(allocations),
        }
    }
}

/// Whether a tile is among those that were newly placed.
pub open spec fn newly_placed(allocations: Seq<AtlasAllocation>, key: LayerTileKey) -> bool {
    exists|i: int|
        0 <= i < allocations.len() && (#[trigger] allocations[i]).newly_allocated
            && allocations[i].key == key
}

/// The places without the newly placed tiles.
pub open spec fn places_rolled_back(
    places: Seq<Option<LayerTileKey>>,
    allocations: Seq<AtlasAllocation>,
) -> Seq<Option<LayerTileKey>> {
    Seq::new(
        places.len(),
        |i: int|
            match places[i] {
                Some(key) => if newly_placed(allocations, key) {
                    None
                } else {
                    Some(key)
                },
                None => None,
            },
    )
}

proof fn lemma_moved(model: ResidentModel, allocations: Seq<AtlasAllocation>, n: int)
    requires
        0 <= n <= allocations.len(),
        model.moved_allocation(allocations.subrange(0, n)) is Some,
    ensures
        model.moved_allocation(allocations) == model.moved_allocation(allocations.subrange(0, n)),
    decreases allocations.len() - n,
{
    if n == allocations.len() {
        assert(allocations.subrange(0, n) =~= allocations);
    } else {
        assert(allocations.subrange(0, n + 1).drop_last() =~= allocations.subrange(0, n));
        lemma_moved(model, allocations, n + 1);
    }
}

/// Gives back the newly placed tiles, the last one first.
pub(crate) fn release_new(atlas: &mut SparseAtlasPlanner, allocations: &Vec<AtlasAllocation>)
    requires
        old(atlas).wf(),
    ensures
        final(atlas).wf(),
        final(atlas).layout == old(atlas).layout,
        final(atlas).places() == places_rolled_back(old(atlas).places(), allocations@),
{
    let ghost before = atlas.places();
    let mut i: usize = allocations.len();
    let n: usize = allocations.len();
    assert(places_rolled_back(before, allocations@.subrange(n as int, n as int)) =~= before);
    while i > 0
        invariant
            i <= n,
            n == allocations@.len(),
            before == old(atlas).places(),
            atlas.wf(),
            atlas.layout == old(atlas).layout,
            atlas.places() == places_rolled_back(
                before,
                allocations@.subrange(i as int, n as int),
            ),
        decreases i,
    {
        i -= 1;
        let ghost held = atlas.places();
        let ghost later = allocations@.subrange(i as int + 1, n as int);
        let ghost from = allocations@.subrange(i as int, n as int);
        let allocation = allocations[i];
        proof {
            assert(from[0] == allocation);
            assert(forall|k: int| 0 <= k < later.len() ==> later[k] == #[trigger] from[k + 1]);
            assert forall|key: LayerTileKey| newly_placed(from, key) <==> (newly_placed(later, key)
                || (allocation.newly_allocated && allocation.key == key)) by {
                if newly_placed(later, key) {
                    let k = choose|k: int|
                        0 <= k < later.len() && (#[trigger] later[k]).newly_allocated
                            && later[k].key == key;
                    assert(from[k + 1] == later[k]);
                }
                if newly_placed(from, key) {
                    let k = choose|k: int|
                        0 <= k < from.len() && (#[trigger] from[k]).newly_allocated
                            && from[k].key == key;
                    if k > 0 {
                        assert(later[k - 1] == from[k]);
                    }
                }
            }
        }
        if allocation.newly_allocated {
            let released = atlas.release(allocation.key);
            proof {
                match slot_of_key(held, allocation.key) {
                    Some(at) => {
                        assert(exists|k: int|
                            0 <= k < held.len() && #[trigger] held[k] == Some(allocation.key));
                        assert(held[at] == Some(allocation.key));
                        assert forall|k: int| 0 <= k < held.len() && k != at implies held[k]
                            != Some(allocation.key) by {
                        }
                    },
                    None => {
                        assert forall|k: int| 0 <= k < held.len() implies held[k] != Some(
                            allocation.key,
                        ) by {
                        }
                    },
                }
            }
        }
        assert(atlas.places() =~= places_rolled_back(before, from));
    }
    assert(allocations@.subrange(0, n as int) =~= allocations@);
}

impl GpuResidentDocument {
    /// Begins a stroke on the layer that is drawn on.
    pub fn begin_round_stroke(&mut self, target: &GpuDocumentTarget, layer: LayerId) -> (id: Result<
        GpuResidentRoundStrokeId,
        GpuResidentDocumentError,
    >)
        requires
            old(self).wf(),
        ensures
            final(self).wf(),
            match id {
                Ok(id) => {
                    &&& old(self)@.begin_error(target@, layer) is None
                    &&& id == GpuResidentRoundStrokeId(old(self)@.next_stroke)
                    &&& final(self)@ == (ResidentModel {
                        stroke: Some(id),
                        next_stroke: (old(self)@.next_stroke + 1) as u64,
                        ..old(self)@
                    })
                },
                Err(error) => old(self)@.begin_error(target@, layer) == Some(error) && *final(self)
                    == *old(self),
            },
    {
        match self.check_target(target) {
            Ok(_) => {},
            Err(error) => {
                return Err(error);
            },
        }
        match self.check_layout(target) {
            Ok(_) => {},
            Err(error) => {
                return Err(error);
            },
        }
        let expected = self.metadata.active_layer();
        if layer.get() != expected.get() {
            return Err(
                GpuResidentDocumentError::ActiveRoundStrokeLayerMismatch { expected, actual: layer },
            );
        }
        match self.check_active_round_stroke(None) {
            Ok(_) => {},
            Err(error) => {
                return Err(error);
            },
        }
        if self.next_round_stroke_id == u64::MAX {
            return Err(GpuResidentDocumentError::ActiveRoundStrokeIdExhausted);
        }
        let id = GpuResidentRoundStrokeId(self.next_round_stroke_id);
        self.next_round_stroke_id = self.next_round_stroke_id + 1;
        self.active_round_stroke = Some(id);
        Ok(id)
    }

    /// Cuts a run of commands into work on tiles. New tiles take places in the atlas of
    /// the document.
    pub fn schedule_round_stroke<F: Fn(RoundContact, RoundContact) -> RoundBounds>(
        &mut self,
        id: GpuResidentRoundStrokeId,
        scheduler: &mut RoundMaskScheduler,
        commands: &Vec<RoundPathCommand>,
        bounds_of: &F,
    ) -> (batch: Result<RoundMaskBatch, GpuResidentDocumentError>)
        requires
            old(self).wf(),
            old(scheduler).wf(),
            forall|from: RoundContact, to: RoundContact| #[trigger]
                call_requires(*bounds_of, (from, to)),
        ensures
            final(self).wf(),
            final(scheduler).wf(),
            final(self)@ == (ResidentModel { places: final(self)@.places, ..old(self)@ }),
            match old(self)@.stroke_layer_error(id, old(scheduler)@.layer) {
                Some(expected) => {
                    &&& batch == Err::<RoundMaskBatch, GpuResidentDocumentError>(expected)
                    &&& final(self)@ == old(self)@
                    &&& *final(scheduler) == *old(scheduler)
                },
                None => match batch {
                    Ok(batch) => schedule_reported(
                        *bounds_of,
                        old(scheduler)@,
                        old(self)@.layout@,
                        old(self)@.places,
                        commands@,
                        Ok(batch),
                        final(scheduler)@,
                        final(self)@.places,
                    ),
                    Err(GpuResidentDocumentError::RoundMask(error)) => schedule_reported(
                        *bounds_of,
                        old(scheduler)@,
                        old(self)@.layout@,
                        old(self)@.places,
                        commands@,
                        Err(error),
                        final(scheduler)@,
                        final(self)@.places,
                    ),
                    Err(_) => false,
                },
            },
    {
        match self.check_active_round_stroke(Some(id)) {
            Ok(_) => {},
            Err(error) => {
                return Err(error);
            },
        }
        let expected = self.metadata.active_layer();
        let actual = scheduler.layer();
        if actual.get() != expected.get() {
            return Err(
                GpuResidentDocumentError::ActiveRoundStrokeLayerMismatch { expected, actual },
            );
        }
        match scheduler.schedule(&mut self.atlas, commands, bounds_of) {
            Ok(batch) => Ok(batch),
            Err(error) => Err(GpuResidentDocumentError::RoundMask(error)),
        }
    }

    /// Gives back the tiles that a stroke newly placed. Where one of them was moved or is
    /// held by the history, none is given back.
    pub fn rollback_round_stroke_allocations(
        &mut self,
        id: GpuResidentRoundStrokeId,
        allocations: &Vec<AtlasAllocation>,
    ) -> (undone: Result<(), GpuResidentDocumentError>)
        requires
            old(self).wf(),
        ensures
            final(self).wf(),
            match undone {
                Ok(_) => {
                    &&& old(self)@.rollback_error(id, allocations@) is None
                    &&& final(self)@ == (ResidentModel {
                        places: places_rolled_back(old(self)@.places, allocations@),
                        ..old(self)@
                    })
                },
                Err(error) => old(self)@.rollback_error(id, allocations@) == Some(error)
                    && *final(self) == *old(self),
            },
    {
        match self.check_active_round_stroke(Some(id)) {
            Ok(_) => {},
            Err(error) => {
                return Err(error);
            },
        }
        let mut i: usize = 0;
        assert(allocations@.subrange(0, 0) =~= Seq::empty());
        while i < allocations.len()
            invariant
                self.wf(),
                *self == *old(self),
                self@.stroke_error(Some(id)) is None,
                i <= allocations@.len(),
                self@.moved_allocation(allocations@.subrange(0, i as int)) is None,
            decreases allocations@.len() - i,
        {
            let allocation = allocations[i];
            assert(allocations@.subrange(0, i as int + 1).drop_last() =~= allocations@.subrange(
                0,
                i as int,
            ));
            if allocation.newly_allocated {
                let actual = self.atlas.slot(allocation.key);
                let in_place = match actual {
                    Some(slot) => slot.same(allocation.slot),
                    None => false,
                };
                if !in_place || self.history.pins_tile(allocation.key) {
                    proof {
                        lemma_moved(self@, allocations@, i as int + 1);
                    }
                    return Err(
                        GpuResidentDocumentError::ActiveRoundStrokeAllocationChanged {
                            key: allocation.key,
                            expected: allocation.slot,
                            actual,
                        },
                    );
                }
            }
            i += 1;
        }
        assert(allocations@.subrange(0, i as int) =~= allocations@);
        release_new(&mut self.atlas, allocations);
        Ok(())
    }

    /// Ends a stroke.
    pub fn finish_round_stroke(&mut self, id: GpuResidentRoundStrokeId) -> (finished: Result<
        (),
        GpuResidentDocumentError,
    >)
        requires
            old(self).wf(),
        ensures
            final(self).wf(),
            match finished {
                Ok(_) => old(self)@.stroke_error(Some(id)) is None && final(self)@ == (
                ResidentModel { stroke: None, ..old(self)@ }),
                Err(error) => old(self)@.stroke_error(Some(id)) == Some(error) && *final(self)
                    == *old(self),
            },
    {
        match self.check_active_round_stroke(Some(id)) {
            Ok(_) => {},
            Err(error) => {
                return Err(error);
            },
        }
        self.active_round_stroke = None;
        Ok(())
    }
}

/// The tiles that hold the relief of these tiles.
pub open spec fn relief_keys(tiles: Seq<ActiveRoundMaskTile>) -> Seq<LayerTileKey> {
    Seq::new(
        tiles.len(),
        |i: int|
            LayerTileKey {
                layer: tiles[i].key.layer.spec_material_plane(),
                tile: tiles[i].key.tile,
            },
    )
}

impl GpuResidentDocument {
    /// Finds places for the relief of tiles.
    pub fn allocate_material_tiles(
        &mut self,
        id: GpuResidentRoundStrokeId,
        tiles: &Vec<ActiveRoundMaskTile>,
    ) -> (allocations: Result<Vec<AtlasAllocation>, GpuResidentDocumentError>)
        requires
            old(self).wf(),
        ensures
            final(self).wf(),
            match old(self)@.stroke_error(Some(id)) {
                Some(expected) => {
                    &&& allocations matches Err(error) && error == expected
                    &&& final(self)@ == old(self)@
                },
                None => match allocate_all(
                    old(self)@.layout@,
                    old(self)@.places,
                    relief_keys(tiles@),
                ) {
                    Some((places, expected)) => {
                        &&& allocations matches Ok(found) && found@ == expected
                        &&& final(self)@ == (ResidentModel { places, ..old(self)@ })
                    },
                    None => {
                        &&& allocations matches Err(error) && error
                            == GpuResidentDocumentError::Atlas(
                            AtlasError::CapacityExhausted {
                                capacity: old(self)@.layout@.capacity() as u32,
                            },
                        )
                        &&& final(self)@ == old(self)@
                    },
                },
            },
    {
        match self.check_active_round_stroke(Some(id)) {
            Ok(_) => {},
            Err(error) => {
                return Err(error);
            },
        }
        let mut keys: Vec<LayerTileKey> = Vec::new();
        let mut i: usize = 0;
        while i < tiles.len()
            invariant
                i <= tiles@.len(),
                keys@ == relief_keys(tiles@).subrange(0, i as int),
            decreases tiles@.len() - i,
        {
            keys.push(
                LayerTileKey::new(tiles[i].key.layer.material_plane(), tiles[i].key.tile),
            );
            i += 1;
            assert(keys@ =~= relief_keys(tiles@).subrange(0, i as int));
        }
        assert(keys@ =~= relief_keys(tiles@));
        match self.atlas.allocate_batch(&keys) {
            Ok(allocations) => Ok(allocations),
            Err(error) => Err(GpuResidentDocumentError::Atlas(error)),
        }
    }
}

/// What placing some tiles does to the places: the old occupants stay, every new one was placed by
/// an allocation, and no allocation that made a place names an old occupant.
proof fn lemma_allocated(
    geometry: AtlasGeometry,
    places: Seq<Option<LayerTileKey>>,
    keys: Seq<LayerTileKey>,
)
    requires
        geometry.valid(),
        allocate_all(geometry, places, keys) is Some,
    ensures
        ({
            let (after, allocations) = allocate_all(geometry, places, keys)->0;
            &&& places.len() <= after.len()
            &&& forall|i: int|
                #![trigger after[i]]
                0 <= i < places.len() && places[i] is Some ==> after[i] == places[i]
            &&& forall|i: int|
                #![trigger after[i]]
                0 <= i < after.len() && after[i] is Some ==> (i < places.len() && after[i]
                    == places[i]) || newly_placed(allocations, after[i]->0)
            &&& forall|i: int, key: LayerTileKey|
                #![trigger places[i], newly_placed(allocations, key)]
                0 <= i < places.len() && newly_placed(allocations, key) ==> places[i] != Some(key)
        }),
    decreases keys.len(),
{
    if keys.len() > 0 {
        let rest = keys.drop_last();
        let key = keys.last();
        lemma_allocated(geometry, places, rest);
        let (earlier, made) = allocate_all(geometry, places, rest)->0;
        let (after, allocations) = allocate_all(geometry, places, keys)->0;
        let last = allocations.last();
        assert(allocations.drop_last() =~= made);
        assert forall|other: LayerTileKey| #[trigger] newly_placed(made, other) implies newly_placed(
            allocations,
            other,
        ) by {
            let i = choose|i: int|
                0 <= i < made.len() && (#[trigger] made[i]).newly_allocated && made[i].key == other;
            assert(allocations[i] == made[i]);
        }
        assert forall|other: LayerTileKey| #[trigger]
            newly_placed(allocations, other) implies newly_placed(made, other) || (
        last.newly_allocated && last.key == other) by {
            let i = choose|i: int|
                0 <= i < allocations.len() && (#[trigger] allocations[i]).newly_allocated
                    && allocations[i].key == other;
            if i < made.len() {
                assert(allocations[i] == made[i]);
            }
        }
        if slot_of_key(earlier, key) is None {
            assert(allocations[allocations.len() - 1] == last);
            assert(newly_placed(allocations, key));
            lemma_first_free_is_free(earlier);
            lemma_capacity_bounds(geometry);
            let at = first_free(earlier);
            assert(after.len() >= earlier.len() && at < after.len());
            assert(after[at] == Some(key));
            assert forall|i: int|
                #![trigger after[i]]
                0 <= i < after.len() && i != at implies after[i] == if i < earlier.len() {
                earlier[i]
            } else {
                None
            } by {}
            assert forall|i: int|
                #![trigger after[i]]
                0 <= i < places.len() && places[i] is Some implies after[i] == places[i] by {
                assert(earlier[i] == places[i]);
            }
            assert forall|i: int|
                #![trigger after[i]]
                0 <= i < after.len() && after[i] is Some implies (i < places.len() && after[i]
                == places[i]) || newly_placed(allocations, after[i]->0) by {
                if i != at {
                    assert(earlier[i] is Some);
                }
            }
            assert forall|i: int, other: LayerTileKey|
                #![trigger places[i], newly_placed(allocations, other)]
                0 <= i < places.len() && newly_placed(allocations, other) implies places[i]
                != Some(other) by {
                if other == key && places[i] == Some(key) {
                    assert(earlier[i] == places[i]);
                    assert(false);
                }
            }
        }
    }
}

/// Taking back what a stroke has placed leaves the atlas as it was: each place holds what it held
/// before, and places that were added are empty.
pub proof fn law_rolling_a_stroke_back_restores_the_places(
    geometry: AtlasGeometry,
    places: Seq<Option<LayerTileKey>>,
    keys: Seq<LayerTileKey>,
    i: int,
)
    requires
        geometry.valid(),
        allocate_all(geometry, places, keys) is Some,
        0 <= i < (allocate_all(geometry, places, keys)->0).0.len(),
    ensures
        places_rolled_back(
            (allocate_all(geometry, places, keys)->0).0,
            (allocate_all(geometry, places, keys)->0).1,
        )[i] == if i < places.len() {
            places[i]
        } else {
            None
        },
{
    lemma_allocated(geometry, places, keys);
    let (after, allocations) = allocate_all(geometry, places, keys)->0;
    let held = after[i];
    if i < places.len() {
        let before = places[i];
        if let Some(key) = before {
            assert(after[i] == places[i]);
            if newly_placed(allocations, key) {
                assert(places[i] != Some(key));
            }
        }
    }
}

} // verus!
