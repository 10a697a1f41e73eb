//! Whole layers of a resident document: copies, imports and the first upload.

use crate::document::{Document, DocumentModel, DocumentRevision, LayerId};
use crate::document_metadata::{
    create_edit, duplicate_edit, layer_models, optional_edit, DocumentMetadata, DocumentMetadataEdit,
    DocumentMetadataEditDirection, EditModel, MetadataModel,
};
use crate::gpu_atlas::{allocate_all, AtlasAllocation, AtlasError, LayerTileKey};
use crate::gpu_cpu_mirror::{GpuCpuMirror, MirrorModel};
use crate::gpu_document_history::{
    entry_models, GpuHistoryEntry, GpuHistoryId, GpuHistoryRecordPreview,
};
use crate::gpu_document_mirror_dispatcher::structure_error;
use crate::gpu_document_target::{GpuDocumentTarget, GpuDocumentTargetError, TargetModel};
use crate::gpu_history_recovery::{spill_models, GpuHistoryRecoveryEntry};
use crate::gpu_layer_recovery::{
    layer_captured, ordered_tiles, tiles_in_order, GpuExactLayerRecoveryBuildError, GpuExactLayerRecoveryCommand,
};
use crate::gpu_layer_residents::{
    busy_error, clone_destinations, clone_error, installed, layer_residents, place_error, upload_destinations, GpuDocumentResidentClone, GpuDocumentResidentCloneStats,
    GpuDocumentResidentUpload, GpuDocumentResidentUploadStats, LayerResident,
};
use crate::gpu_live_recovery::LiveModel;
use crate::gpu_mirror_structure::{document_tiles, GpuMirrorStructure, StructureModel};
use crate::gpu_recovery_replay::{
    command_byte_len, raster_recovered, replay_gpu_raster_recovery,
    GpuRasterRecoveryCommand, GpuRasterRecoveryReplayError, GpuRecoveredRaster,
};
use crate::gpu_resident_document::{
    fresh_document, limits_error, tile_size_error, GpuResidentDocument, GpuResidentDocumentError,
    GpuResidentDocumentLimits, ResidentModel,
};
use crate::gpu_resident_metadata::{
    edit_reported, CommitReport, GpuResidentLayerReclamation, GpuResidentMetadataEditFailure,
};
use crate::gpu_resident_strokes::{places_rolled_back, release_new};
use crate::gpu_round_recovery::{evaluator_fits, GpuRoundRecoveryCommand, RoundEvaluation};
use crate::gpu_structural_recovery::PreparedGpuStructuralRecoveryRecord;
use crate::keyed_map::{entries_map, value_of, Key};
use crate::ordering::{sort, stable_sorted};
use crate::raster::{LinearRgba, TileCoord};
use crate::raster_layer::{tile_entries, RasterLayer, RasterModel, RasterTile};
use crate::shared::share;
use vstd::prelude::*;

verus! {

#[derive(Debug)]
pub struct GpuResidentLayerCloneCommit {
    pub revision: DocumentRevision,
    pub history_id: GpuHistoryId,
    pub stats: GpuDocumentResidentCloneStats,
    /// What the device has to copy.
    pub clones: Vec<GpuDocumentResidentClone>,
    pub evicted_history: Vec<GpuHistoryEntry>,
    pub evicted_spills: Vec<GpuHistoryRecoveryEntry>,
    pub freed_spill_bytes: u64,
    pub reclamation: GpuResidentLayerReclamation,
}

impl View for GpuResidentLayerCloneCommit {
    type V = CommitReport;

    open(crate) spec fn view(&self) -> CommitReport {
        CommitReport {
            revision: self.revision,
            history_id: self.history_id,
            evicted_history: entry_models(self.evicted_history@),
            evicted_spills: spill_models(self.evicted_spills@),
            freed_spill_bytes: self.freed_spill_bytes as int,
            reclamation: self.reclamation,
        }
    }
}

#[derive(Debug)]
pub struct GpuResidentLayerImportCommit {
    pub revision: DocumentRevision,
    pub history_id: GpuHistoryId,
    pub stats: GpuDocumentResidentUploadStats,
    /// What has to be brought to the device.
    pub uploads: Vec<GpuDocumentResidentUpload>,
    pub evicted_history: Vec<GpuHistoryEntry>,
    pub evicted_spills: Vec<GpuHistoryRecoveryEntry>,
    pub freed_spill_bytes: u64,
    pub reclamation: GpuResidentLayerReclamation,
}

impl View for GpuResidentLayerImportCommit {
    type V = CommitReport;

    open(crate) spec fn view(&self) -> CommitReport {
        CommitReport {
            revision: self.revision,
            history_id: self.history_id,
            evicted_history: entry_models(self.evicted_history@),
            evicted_spills: spill_models(self.evicted_spills@),
            freed_spill_bytes: self.freed_spill_bytes as int,
            reclamation: self.reclamation,
        }
    }
}

/// A change was refused with this error, and this edit was given back.
pub open spec fn refused<T>(
    result: Result<T, Box<GpuResidentMetadataEditFailure>>,
    error: GpuResidentDocumentError,
    edit: Option<EditModel>,
) -> bool {
    result matches Err(failure) && failure.error == error && optional_edit(failure.edit) == edit
}

/// Why the mirror or recovery cannot take a new layer, if they cannot.
pub open(crate) spec fn layer_refusal(
    model: ResidentModel,
    command: GpuRasterRecoveryCommand,
    change: StructureModel,
) -> Option<GpuResidentDocumentError> {
    let revision = model.next_revision()->0;
    if let Some(error) = structure_error(
        model.mirror,
        model.metadata.revision,
        revision,
        change,
    ) {
        Some(GpuResidentDocumentError::MirrorDispatch(error))
    } else if let Some(error) = model.recovery.structural_error(
        revision,
        command_byte_len(command) as u64,
    ) {
        Some(GpuResidentDocumentError::Recovery(error))
    } else {
        None
    }
}

/// The first resident whose place holds another tile on the device.
pub open spec fn resident_clash(target: TargetModel, residents: Seq<LayerResident>) -> Option<
    GpuDocumentTargetError,
>
    decreases residents.len(),
{
    if residents.len() == 0 {
        None
    } else {
        match resident_clash(target, residents.drop_last()) {
            Some(error) => Some(error),
            None => {
                let last = residents.last();
                let actual = value_of(target.residents, last.slot);
                if actual is Some && actual != Some(last.key) {
                    Some(
                        GpuDocumentTargetError::ResidentCloneSourceMismatch {
                            slot: last.slot,
                            expected: last.key,
                            actual,
                        },
                    )
                } else {
                    None
                }
            },
        }
    }
}

/// Those of the residents that hold pixels on the device.
pub open spec fn drawn_residents(target: TargetModel, residents: Seq<LayerResident>) -> Seq<
    LayerResident,
>
    decreases residents.len(),
{
    if residents.len() == 0 {
        Seq::empty()
    } else {
        let rest = drawn_residents(target, residents.drop_last());
        if value_of(target.residents, residents.last().slot) == Some(residents.last().key) {
            rest.push(residents.last())
        } else {
            rest
        }
    }
}

/// The tiles of a layer in the order in which they are copied.
pub open spec fn residents_in_order(model: ResidentModel, layer: LayerId) -> Seq<LayerResident> {
    stable_sorted(
        layer_residents(model.layout@, model.places, layer, model.places.len() as int),
    )
}

pub open spec fn keys_on(residents: Seq<LayerResident>, layer: LayerId) -> Seq<LayerTileKey> {
    Seq::new(
        residents.len(),
        |i: int| LayerTileKey { layer, tile: residents[i].key.tile },
    )
}

pub open spec fn clones_between(
    residents: Seq<LayerResident>,
    allocations: Seq<AtlasAllocation>,
) -> Seq<GpuDocumentResidentClone> {
    Seq::new(
        residents.len(),
        |i: int|
            GpuDocumentResidentClone {
                source_key: residents[i].key,
                source_slot: residents[i].slot,
                destination_key: allocations[i].key,
                destination_slot: allocations[i].slot,
            },
    )
}

/// What comes of copying a layer whose pixels were recovered into `command`.
pub open(crate) spec fn clone_reported(
    before: ResidentModel,
    target: TargetModel,
    source: LayerId,
    edit: EditModel,
    command: GpuExactLayerRecoveryCommand,
    result: Result<
        (LayerId, GpuResidentLayerCloneCommit),
        Box<GpuResidentMetadataEditFailure>,
    >,
    after: ResidentModel,
    target_after: TargetModel,
) -> bool {
    let recovery = GpuRasterRecoveryCommand::Layer(command);
    let change = StructureModel::CloneLayer { source, destination: edit.layer() };
    let residents = residents_in_order(before, source);
    let drawn = drawn_residents(target, residents);
    if let Some(error) = layer_refusal(before, recovery, change) {
        refused(result, error, Some(edit)) && after == before && target_after == target
    } else if let Some(error) = resident_clash(target, residents) {
        refused(result, GpuResidentDocumentError::Target(error), Some(edit)) && after == before
            && target_after == target
    } else {
        match allocate_all(before.layout@, before.places, keys_on(drawn, edit.layer())) {
            None => {
                &&& refused(
                    result,
                    GpuResidentDocumentError::Atlas(
                        AtlasError::CapacityExhausted { capacity: before.layout@.capacity() as u32 },
                    ),
                    Some(edit),
                )
                &&& after == before
                &&& target_after == target
            },
            Some((places, allocations)) => {
                let clones = clones_between(drawn, allocations);
                match clone_error(target, clones) {
                    Some(error) => {
                        &&& refused(result, GpuResidentDocumentError::Target(error), Some(edit))
                        &&& after == (ResidentModel {
                            places: places_rolled_back(places, allocations),
                            ..before
                        })
                        &&& target_after == target
                    },
                    None => {
                        &&& result matches Ok((layer, commit))
                        &&& layer == edit.layer()
                        &&& commit.stats.tiles == clones.len()
                        &&& commit.clones@ == clones
                        &&& target_after == installed(target, clone_destinations(clones))
                        &&& edit_reported(
                            before,
                            (ResidentModel { places, ..before }).edit_recorded(
                                edit,
                                recovery,
                                change,
                            ),
                            commit@,
                            after,
                        )
                    },
                }
            },
        }
    }
}

/// What comes of copying a layer once its pixels were asked of recovery.
pub open(crate) spec fn recovered_clone_reported(
    before: ResidentModel,
    target: TargetModel,
    source: LayerId,
    edit: EditModel,
    recovered: Result<GpuRecoveredRaster, GpuRasterRecoveryReplayError>,
    result: Result<
        (LayerId, GpuResidentLayerCloneCommit),
        Box<GpuResidentMetadataEditFailure>,
    >,
    after: ResidentModel,
    target_after: TargetModel,
) -> bool {
    match recovered {
        Err(error) => {
            &&& refused(result, GpuResidentDocumentError::RecoveryReplay(error), Some(edit))
            &&& after == before
            &&& target_after == target
        },
        Ok(recovered) => exists|
            built: Result<GpuExactLayerRecoveryCommand, GpuExactLayerRecoveryBuildError>,
        |
            {
                &&& #[trigger] layer_captured(edit.layer(), recovered.spec_raster(), built)
                &&& match built {
                    Err(error) => {
                        &&& refused(
                            result,
                            GpuResidentDocumentError::LayerRecoveryBuild(error),
                            Some(edit),
                        )
                        &&& after == before
                        &&& target_after == target
                    },
                    Ok(command) => clone_reported(
                        before,
                        target,
                        source,
                        edit,
                        command,
                        result,
                        after,
                        target_after,
                    ),
                }
            },
    }
}

/// What recovery says of the pixels of a layer.
pub open(crate) spec fn layer_recovered<
    F: Fn(&GpuRoundRecoveryCommand, &RasterLayer) -> RoundEvaluation,
>(
    evaluate: F,
    recovery: LiveModel,
    layer: LayerId,
    recovered: Result<GpuRecoveredRaster, GpuRasterRecoveryReplayError>,
) -> bool {
    raster_recovered(
        evaluate,
        recovery.timeline.base,
        recovery.timeline.journal.latest,
        recovery.timeline.journal.records,
        layer,
        recovered,
    )
}

/// Why a layer cannot be copied at all, if it cannot.
pub open spec fn duplicate_error(
    model: ResidentModel,
    target: TargetModel,
    source: LayerId,
) -> Option<GpuResidentDocumentError> {
    if let Some(error) = model.stroke_error(None) {
        Some(error)
    } else if let Some(error) = model.target_error(target.id) {
        Some(error)
    } else if let Err(error) = duplicate_edit(model.metadata, source) {
        Some(GpuResidentDocumentError::Metadata(error))
    } else {
        None
    }
}

fn edit_failure(
    error: GpuResidentDocumentError,
    edit: Option<DocumentMetadataEdit>,
) -> (failure: Box<GpuResidentMetadataEditFailure>)
    ensures
        failure.error == error,
        failure.edit == edit,
{
    Box::new(GpuResidentMetadataEditFailure { error, edit })
}

proof fn lemma_clash(target: TargetModel, residents: Seq<LayerResident>, n: int)
    requires
        0 <= n <= residents.len(),
        resident_clash(target, residents.subrange(0, n)) is Some,
    ensures
        resident_clash(target, residents) == resident_clash(target, residents.subrange(0, n)),
    decreases residents.len() - n,
{
    if n == residents.len() {
        assert(residents.subrange(0, n) =~= residents);
    } else {
        assert(residents.subrange(0, n + 1).drop_last() =~= residents.subrange(0, n));
        lemma_clash(target, residents, n + 1);
    }
}

/// The residents that the device holds, or the first one whose place holds another tile.
fn drawn_on(target: &GpuDocumentTarget, residents: &Vec<LayerResident>) -> (drawn: Result<
    Vec<LayerResident>,
    GpuDocumentTargetError,
>)
    requires
        target.wf(),
    ensures
        match drawn {
            Ok(drawn) => resident_clash(target@, residents@) is None && drawn@ == drawn_residents(
                target@,
                residents@,
            ),
            Err(error) => resident_clash(target@, residents@) == Some(error),
        },
{
    let mut drawn: Vec<LayerResident> = Vec::new();
    let mut i: usize = 0;
    assert(residents@.subrange(0, 0) =~= Seq::empty());
    while i < residents.len()
        invariant
            target.wf(),
            i <= residents@.len(),
            resident_clash(target@, residents@.subrange(0, i as int)) is None,
            drawn@ == drawn_residents(target@, residents@.subrange(0, i as int)),
        decreases residents@.len() - i,
    {
        let resident = residents[i];
        assert(residents@.subrange(0, i as int + 1).drop_last() =~= residents@.subrange(
            0,
            i as int,
        ));
        let actual = target.initialized_resident(resident.slot);
        match actual {
            Some(key) => {
                if key.same(resident.key) {
                    drawn.push(resident);
                } else {
                    proof {
                        lemma_clash(target@, residents@, i as int + 1);
                    }
                    return Err(
                        GpuDocumentTargetError::ResidentCloneSourceMismatch {
                            slot: resident.slot,
                            expected: resident.key,
                            actual,
                        },
                    );
                }
            },
            None => {},
        }
        i += 1;
    }
    assert(residents@.subrange(0, i as int) =~= residents@);
    Ok(drawn)
}

fn list_keys(residents: &Vec<LayerResident>, layer: LayerId) -> (keys: Vec<LayerTileKey>)
    ensures
        keys@ == keys_on(residents@, layer),
{
    let mut keys: Vec<LayerTileKey> = Vec::new();
    let mut i: usize = 0;
    while i < residents.len()
        invariant
            i <= residents@.len(),
            keys@ == keys_on(residents@, layer).subrange(0, i as int),
        decreases residents@.len() - i,
    {
        keys.push(LayerTileKey::new(layer, residents[i].key.tile));
        i += 1;
        assert(keys@ =~= keys_on(residents@, layer).subrange(0, i as int));
    }
    assert(keys@ =~= keys_on(residents@, layer));
    keys
}

fn list_clones(residents: &Vec<LayerResident>, allocations: &Vec<AtlasAllocation>) -> (clones: Vec<
    GpuDocumentResidentClone,
>)
    requires
        allocations@.len() == residents@.len(),
    ensures
        clones@ == clones_between(residents@, allocations@),
{
    let mut clones: Vec<GpuDocumentResidentClone> = Vec::new();
    let mut i: usize = 0;
    while i < residents.len()
        invariant
            allocations@.len() == residents@.len(),
            i <= residents@.len(),
            clones@ == clones_between(residents@, allocations@).subrange(0, i as int),
        decreases residents@.len() - i,
    {
        clones.push(
            GpuDocumentResidentClone {
                source_key: residents[i].key,
                source_slot: residents[i].slot,
                destination_key: allocations[i].key,
                destination_slot: allocations[i].slot,
            },
        );
        i += 1;
        assert(clones@ =~= clones_between(residents@, allocations@).subrange(0, i as int));
    }
    assert(clones@ =~= clones_between(residents@, allocations@));
    clones
}

/// There is one allocation for each key.
proof fn lemma_one_each(
    geometry: crate::gpu_atlas::AtlasGeometry,
    places: Seq<Option<LayerTileKey>>,
    keys: Seq<LayerTileKey>,
)
    ensures
        allocate_all(geometry, places, keys) matches Some((_, allocations))
            ==> allocations.len() == keys.len(),
    decreases keys.len(),
{
    if keys.len() > 0 {
        lemma_one_each(geometry, places, keys.drop_last());
    }
}

impl GpuResidentDocument {
    /// The records after an edit and the preview of its entry, where both can be had.
    fn check_edit(&self, edit: &DocumentMetadataEdit) -> (checked: Result<
        (DocumentRevision, DocumentMetadata, GpuHistoryRecordPreview),
        GpuResidentDocumentError,
    >)
        requires
            self.wf(),
        ensures
            match checked {
                Ok((revision, metadata, preview)) => {
                    &&& self@.recording_error(edit@) is None
                    &&& self@.next_revision() == Some(revision)
                    &&& metadata.wf()
                    &&& self@.edited(edit@)->Ok_0 == metadata@
                    &&& preview@ == self@.history.preview(0)
                },
                Err(error) => self@.recording_error(edit@) == Some(error),
            },
    {
        let revision = match self.revision().checked_next() {
            Some(revision) => revision,
            None => {
                return Err(GpuResidentDocumentError::RevisionExhausted);
            },
        };
        let mut metadata = self.metadata.duplicate();
        match metadata.apply_edit(edit, DocumentMetadataEditDirection::Forward, revision) {
            Ok(_) => {},
            Err(error) => {
                return Err(GpuResidentDocumentError::Metadata(error));
            },
        }
        match self.history.check_metadata_record() {
            Ok(preview) => Ok((revision, metadata, preview)),
            Err(error) => Err(GpuResidentDocumentError::HistoryRecord(error)),
        }
    }

    /// What recovery needs for a new layer, where the mirror and recovery can take it.
    fn check_layer(
        &self,
        preview: &GpuHistoryRecordPreview,
        revision: DocumentRevision,
        command: GpuRasterRecoveryCommand,
        change: &GpuMirrorStructure,
    ) -> (checked: Result<PreparedGpuStructuralRecoveryRecord, GpuResidentDocumentError>)
        requires
            self.wf(),
            command.wf(),
            self@.next_revision() == Some(revision),
        ensures
            match checked {
                Ok(prepared) => {
                    &&& layer_refusal(self@, command, change@) is None
                    &&& prepared.wf()
                    &&& prepared@.evicted_ids == preview@.evicted
                    &&& prepared@.source_revision == self@.recovery.revision()
                    &&& prepared@.revision == revision
                    &&& prepared@.byte_len == command_byte_len(command) as u64
                    &&& prepared@.command == command
                },
                Err(error) => layer_refusal(self@, command, change@) == Some(error),
            },
    {
        match self.mirror.check_structural_revision(self.revision(), revision, change) {
            Ok(_) => {},
            Err(error) => {
                return Err(GpuResidentDocumentError::MirrorDispatch(error));
            },
        }
        match self.recovery.prepare_structural_history_record(
            preview.evicted_raster_ids(),
            revision,
            command,
        ) {
            Ok(prepared) => Ok(prepared),
            Err(error) => Err(GpuResidentDocumentError::Recovery(error)),
        }
    }

    /// Copies a layer with its pixels. The copy lies above the original and is drawn on.
    pub fn duplicate_layer<F: Fn(&GpuRoundRecoveryCommand, &RasterLayer) -> RoundEvaluation>(
        &mut self,
        target: &mut GpuDocumentTarget,
        source: LayerId,
        evaluate: &F,
    ) -> (copied: Result<
        (LayerId, GpuResidentLayerCloneCommit),
        Box<GpuResidentMetadataEditFailure>,
    >)
        requires
            old(self).wf(),
            old(target).wf(),
            evaluator_fits(*evaluate),
        ensures
            final(self).wf(),
            final(target).wf(),
            match duplicate_error(old(self)@, old(target)@, source) {
                Some(error) => {
                    &&& refused(copied, error, None)
                    &&& final(self)@ == old(self)@
                    &&& final(target)@ == old(target)@
                },
                None => {
                    let edit = duplicate_edit(old(self)@.metadata, source)->Ok_0;
                    match old(self)@.recording_error(edit) {
                        Some(error) => {
                            &&& refused(copied, error, Some(edit))
                            &&& final(self)@ == old(self)@
                            &&& final(target)@ == old(target)@
                        },
                        None => exists|
                            recovered: Result<GpuRecoveredRaster, GpuRasterRecoveryReplayError>,
                        |
                            {
                                &&& #[trigger] layer_recovered(
                                    *evaluate,
                                    old(self)@.recovery,
                                    source,
                                    recovered,
                                )
                                &&& recovered_clone_reported(
                                    old(self)@,
                                    old(target)@,
                                    source,
                                    edit,
                                    recovered,
                                    copied,
                                    final(self)@,
                                    final(target)@,
                                )
                            },
                    }
                },
            },
    {
        match self.check_active_round_stroke(None) {
            Ok(_) => {},
            Err(error) => {
                return Err(edit_failure(error, None));
            },
        }
        match self.check_target(target) {
            Ok(_) => {},
            Err(error) => {
                return Err(edit_failure(error, None));
            },
        }
        let edit = match self.metadata.prepare_duplicate_layer(source) {
            Ok(edit) => edit,
            Err(error) => {
                return Err(edit_failure(GpuResidentDocumentError::Metadata(error), None));
            },
        };
        let (revision, metadata, preview) = match self.check_edit(&edit) {
            Ok(checked) => checked,
            Err(error) => {
                return Err(edit_failure(error, Some(edit)));
            },
        };
        let snapshot = self.recovery.timeline.snapshot();
        let recovered = replay_gpu_raster_recovery(&snapshot, source, evaluate);
        let ghost model = self@;
        let ghost before = target@;
        let ghost told = recovered;
        assert(layer_recovered(*evaluate, model.recovery, source, told));
        let raster = match recovered {
            Ok(recovered) => recovered.into_raster(),
            Err(error) => {
                let result = Err(
                    edit_failure(GpuResidentDocumentError::RecoveryReplay(error), Some(edit)),
                );
                assert(recovered_clone_reported(
                    model,
                    before,
                    source,
                    edit@,
                    told,
                    result,
                    self@,
                    target@,
                ));
                return result;
            },
        };
        let ghost content = raster@;
        let destination = edit.layer();
        let built = GpuExactLayerRecoveryCommand::from_raster(destination, &raster);
        let ghost outcome = built;
        assert(layer_captured(destination, content, outcome));
        let command = match built {
            Ok(command) => command,
            Err(error) => {
                let result = Err(
                    edit_failure(GpuResidentDocumentError::LayerRecoveryBuild(error), Some(edit)),
                );
                assert(recovered_clone_reported(
                    model,
                    before,
                    source,
                    edit@,
                    told,
                    result,
                    self@,
                    target@,
                ));
                return result;
            },
        };
        let result = self.place_clone(
            target,
            source,
            edit,
            (revision, metadata, preview),
            command,
        );
        result
    }

    fn place_clone(
        &mut self,
        target: &mut GpuDocumentTarget,
        source: LayerId,
        edit: DocumentMetadataEdit,
        checked: (DocumentRevision, DocumentMetadata, GpuHistoryRecordPreview),
        command: GpuExactLayerRecoveryCommand,
    ) -> (copied: Result<
        (LayerId, GpuResidentLayerCloneCommit),
        Box<GpuResidentMetadataEditFailure>,
    >)
        requires
            old(self).wf(),
            old(target).wf(),
            command.wf(),
            old(self)@.recording_error(edit@) is None,
            old(self)@.next_revision() == Some(checked.0),
            checked.1.wf(),
            old(self)@.edited(edit@)->Ok_0 == checked.1@,
            checked.2@ == old(self)@.history.preview(0),
        ensures
            final(self).wf(),
            final(target).wf(),
            clone_reported(
                old(self)@,
                old(target)@,
                source,
                edit@,
                command,
                copied,
                final(self)@,
                final(target)@,
            ),
    {
        let (revision, metadata, preview) = checked;
        let destination = edit.layer();
        let change = GpuMirrorStructure::CloneLayer { source, destination };
        let recovery = match self.check_layer(
            &preview,
            revision,
            GpuRasterRecoveryCommand::Layer(command),
            &change,
        ) {
            Ok(recovery) => recovery,
            Err(error) => {
                return Err(edit_failure(error, Some(edit)));
            },
        };
        let residents = sort(self.atlas.layer_residents(source));
        let drawn = match drawn_on(target, &residents) {
            Ok(drawn) => drawn,
            Err(error) => {
                return Err(edit_failure(GpuResidentDocumentError::Target(error), Some(edit)));
            },
        };
        let keys = list_keys(&drawn, destination);
        proof {
            lemma_one_each(self@.layout@, self@.places, keys@);
        }
        let allocations = match self.atlas.allocate_batch(&keys) {
            Ok(allocations) => allocations,
            Err(error) => {
                return Err(edit_failure(GpuResidentDocumentError::Atlas(error), Some(edit)));
            },
        };
        let clones = list_clones(&drawn, &allocations);
        let stats = match target.clone_residents(&clones) {
            Ok(stats) => stats,
            Err(error) => {
                release_new(&mut self.atlas, &allocations);
                return Err(edit_failure(GpuResidentDocumentError::Target(error), Some(edit)));
            },
        };
        let made = self.record_structure(edit, metadata, recovery, change, revision);
        Ok(
            (
                destination,
                GpuResidentLayerCloneCommit {
                    revision: made.revision,
                    history_id: made.history_id,
                    stats,
                    clones,
                    evicted_history: made.evicted_history,
                    evicted_spills: made.evicted_spills,
                    freed_spill_bytes: made.freed_spill_bytes,
                    reclamation: made.reclamation,
                },
            ),
        )
    }
}

pub open spec fn tile_keys(
    layer: LayerId,
    tiles: Seq<(TileCoord, Seq<LinearRgba>)>,
) -> Seq<LayerTileKey> {
    Seq::new(tiles.len(), |i: int| LayerTileKey { layer, tile: tiles[i].0 })
}

/// The places that tiles were given.
pub open spec fn allocated(allocations: Seq<AtlasAllocation>) -> Seq<LayerResident> {
    Seq::new(
        allocations.len(),
        |i: int| LayerResident { key: allocations[i].key, slot: allocations[i].slot },
    )
}

/// Every tile is brought to the place that it was given.
pub open spec fn uploads_match(
    tiles: Seq<(TileCoord, Seq<LinearRgba>)>,
    allocations: Seq<AtlasAllocation>,
    uploads: Seq<GpuDocumentResidentUpload>,
) -> bool {
    &&& upload_destinations(uploads) == allocated(allocations)
    &&& uploads.len() == tiles.len()
    &&& forall|i: int| 0 <= i < uploads.len() ==> (#[trigger] uploads[i]).pixels@ == tiles[i].1
}

/// Why tiles cannot be brought to these places, if they cannot.
pub open spec fn destination_error(target: TargetModel, tiles: Seq<LayerResident>) -> Option<
    GpuDocumentTargetError,
> {
    match busy_error(target) {
        Some(error) => Some(error),
        None => place_error(target, tiles),
    }
}

/// What comes of adding a layer whose pixels are those of `command`.
pub open(crate) spec fn import_reported(
    before: ResidentModel,
    target: TargetModel,
    edit: EditModel,
    command: GpuExactLayerRecoveryCommand,
    result: Result<
        (LayerId, GpuResidentLayerImportCommit),
        Box<GpuResidentMetadataEditFailure>,
    >,
    after: ResidentModel,
    target_after: TargetModel,
) -> bool {
    let recovery = GpuRasterRecoveryCommand::Layer(command);
    let change = StructureModel::InstallLayer(command@);
    if let Some(error) = layer_refusal(before, recovery, change) {
        refused(result, error, Some(edit)) && after == before && target_after == target
    } else {
        match allocate_all(
            before.layout@,
            before.places,
            tile_keys(edit.layer(), command@.tiles),
        ) {
            None => {
                &&& refused(
                    result,
                    GpuResidentDocumentError::Atlas(
                        AtlasError::CapacityExhausted { capacity: before.layout@.capacity() as u32 },
                    ),
                    Some(edit),
                )
                &&& after == before
                &&& target_after == target
            },
            Some((places, allocations)) => match destination_error(
                target,
                allocated(allocations),
            ) {
                Some(error) => {
                    &&& refused(result, GpuResidentDocumentError::Target(error), Some(edit))
                    &&& after == (ResidentModel {
                        places: places_rolled_back(places, allocations),
                        ..before
                    })
                    &&& target_after == target
                },
                None => {
                    &&& result matches Ok((layer, commit))
                    &&& layer == edit.layer()
                    &&& commit.stats.tiles == command@.tiles.len()
                    &&& uploads_match(command@.tiles, allocations, commit.uploads@)
                    &&& target_after == installed(target, allocated(allocations))
                    &&& edit_reported(
                        before,
                        (ResidentModel { places, ..before }).edit_recorded(edit, recovery, change),
                        commit@,
                        after,
                    )
                },
            },
        }
    }
}

/// Why a layer cannot be added at all, if it cannot.
pub open spec fn import_error(
    model: ResidentModel,
    target: TargetModel,
    name: Seq<char>,
    raster: RasterModel,
) -> Option<GpuResidentDocumentError> {
    if let Some(error) = model.stroke_error(None) {
        Some(error)
    } else if let Some(error) = model.target_error(target.id) {
        Some(error)
    } else if raster.geometry != model.metadata.geometry {
        Some(GpuResidentDocumentError::ImportedLayerGeometryMismatch)
    } else if let Err(error) = create_edit(model.metadata, name) {
        Some(GpuResidentDocumentError::Metadata(error))
    } else {
        None
    }
}

fn list_tile_keys(layer: LayerId, tiles: &Vec<RasterTile>) -> (keys: Vec<LayerTileKey>)
    ensures
        keys@ == tile_keys(layer, tile_entries(tiles@)),
{
    let ghost entries = tile_entries(tiles@);
    let mut keys: Vec<LayerTileKey> = Vec::new();
    let mut i: usize = 0;
    while i < tiles.len()
        invariant
            entries == tile_entries(tiles@),
            i <= tiles@.len(),
            keys@ == tile_keys(layer, entries).subrange(0, i as int),
        decreases tiles@.len() - i,
    {
        assert(entries[i as int].0 == tiles@[i as int].coord);
        keys.push(LayerTileKey::new(layer, tiles[i].coord));
        i += 1;
        assert(keys@ =~= tile_keys(layer, entries).subrange(0, i as int));
    }
    assert(keys@ =~= tile_keys(layer, entries));
    keys
}

fn list_uploads(tiles: &Vec<RasterTile>, allocations: &Vec<AtlasAllocation>) -> (uploads: Vec<
    GpuDocumentResidentUpload,
>)
    requires
        allocations@.len() == tiles@.len(),
    ensures
        uploads_match(tile_entries(tiles@), allocations@, uploads@),
{
    let ghost entries = tile_entries(tiles@);
    let mut uploads: Vec<GpuDocumentResidentUpload> = Vec::new();
    let mut i: usize = 0;
    while i < tiles.len()
        invariant
            entries == tile_entries(tiles@),
            allocations@.len() == tiles@.len(),
            i <= tiles@.len(),
            uploads@.len() == i,
            forall|k: int|
                0 <= k < i ==> (#[trigger] uploads@[k]).pixels@ == entries[k].1 && uploads@[k].key
                    == allocations@[k].key && uploads@[k].slot == allocations@[k].slot,
        decreases tiles@.len() - i,
    {
        assert(entries[i as int].1 == tiles@[i as int].pixels@);
        uploads.push(
            GpuDocumentResidentUpload {
                key: allocations[i].key,
                slot: allocations[i].slot,
                pixels: share(&tiles[i].pixels),
            },
        );
        i += 1;
    }
    assert(upload_destinations(uploads@) =~= allocated(allocations@));
    uploads
}

impl GpuResidentDocument {
    /// Adds a layer with the given pixels on top.
    pub fn insert_raster_layer(
        &mut self,
        target: &mut GpuDocumentTarget,
        name: String,
        raster: RasterLayer,
    ) -> (added: Result<
        (LayerId, GpuResidentLayerImportCommit),
        Box<GpuResidentMetadataEditFailure>,
    >)
        requires
            old(self).wf(),
            old(target).wf(),
            raster.wf(),
        ensures
            final(self).wf(),
            final(target).wf(),
            match import_error(old(self)@, old(target)@, name@, raster@) {
                Some(error) => {
                    &&& refused(added, error, None)
                    &&& final(self)@ == old(self)@
                    &&& final(target)@ == old(target)@
                },
                None => {
                    let edit = create_edit(old(self)@.metadata, name@)->Ok_0;
                    match old(self)@.recording_error(edit) {
                        Some(error) => {
                            &&& refused(added, error, Some(edit))
                            &&& final(self)@ == old(self)@
                            &&& final(target)@ == old(target)@
                        },
                        None => exists|
                            built: Result<
                                GpuExactLayerRecoveryCommand,
                                GpuExactLayerRecoveryBuildError,
                            >,
                        |
                            {
                                &&& #[trigger] layer_captured(
                                    LayerId(old(self)@.metadata.next_layer),
                                    raster@,
                                    built,
                                )
                                &&& match built {
                                    Err(error) => {
                                        &&& refused(
                                            added,
                                            GpuResidentDocumentError::LayerRecoveryBuild(error),
                                            Some(edit),
                                        )
                                        &&& final(self)@ == old(self)@
                                        &&& final(target)@ == old(target)@
                                    },
                                    Ok(command) => import_reported(
                                        old(self)@,
                                        old(target)@,
                                        edit,
                                        command,
                                        added,
                                        final(self)@,
                                        final(target)@,
                                    ),
                                }
                            },
                    }
                },
            },
    {
        match self.check_active_round_stroke(None) {
            Ok(_) => {},
            Err(error) => {
                return Err(edit_failure(error, None));
            },
        }
        match self.check_target(target) {
            Ok(_) => {},
            Err(error) => {
                return Err(edit_failure(error, None));
            },
        }
        if raster.width() != self.metadata.width() || raster.height() != self.metadata.height()
            || raster.tile_size() != self.metadata.tile_size() {
            return Err(
                edit_failure(GpuResidentDocumentError::ImportedLayerGeometryMismatch, None),
            );
        }
        assert(raster@.geometry == self@.metadata.geometry);
        let edit = match self.metadata.prepare_create_layer(name) {
            Ok(edit) => edit,
            Err(error) => {
                return Err(edit_failure(GpuResidentDocumentError::Metadata(error), None));
            },
        };
        let (revision, metadata, preview) = match self.check_edit(&edit) {
            Ok(checked) => checked,
            Err(error) => {
                return Err(edit_failure(error, Some(edit)));
            },
        };
        let layer = edit.layer();
        let built = GpuExactLayerRecoveryCommand::from_raster(layer, &raster);
        let ghost outcome = built;
        assert(layer_captured(LayerId(self@.metadata.next_layer), raster@, outcome));
        let command = match built {
            Ok(command) => command,
            Err(error) => {
                return Err(
                    edit_failure(GpuResidentDocumentError::LayerRecoveryBuild(error), Some(edit)),
                );
            },
        };
        self.place_import(target, edit, (revision, metadata, preview), command)
    }

    fn place_import(
        &mut self,
        target: &mut GpuDocumentTarget,
        edit: DocumentMetadataEdit,
        checked: (DocumentRevision, DocumentMetadata, GpuHistoryRecordPreview),
        command: GpuExactLayerRecoveryCommand,
    ) -> (added: Result<
        (LayerId, GpuResidentLayerImportCommit),
        Box<GpuResidentMetadataEditFailure>,
    >)
        requires
            old(self).wf(),
            old(target).wf(),
            command.wf(),
            old(self)@.recording_error(edit@) is None,
            old(self)@.next_revision() == Some(checked.0),
            checked.1.wf(),
            old(self)@.edited(edit@)->Ok_0 == checked.1@,
            checked.2@ == old(self)@.history.preview(0),
        ensures
            final(self).wf(),
            final(target).wf(),
            import_reported(
                old(self)@,
                old(target)@,
                edit@,
                command,
                added,
                final(self)@,
                final(target)@,
            ),
    {
        let (revision, metadata, preview) = checked;
        let layer = edit.layer();
        let ghost tiles = command@.tiles;
        let held = command.duplicate();
        let change = GpuMirrorStructure::InstallLayer(command.duplicate());
        let recovery = match self.check_layer(
            &preview,
            revision,
            GpuRasterRecoveryCommand::Layer(command),
            &change,
        ) {
            Ok(recovery) => recovery,
            Err(error) => {
                return Err(edit_failure(error, Some(edit)));
            },
        };
        let keys = list_tile_keys(layer, held.tiles());
        proof {
            lemma_one_each(self@.layout@, self@.places, keys@);
        }
        let allocations = match self.atlas.allocate_batch(&keys) {
            Ok(allocations) => allocations,
            Err(error) => {
                return Err(edit_failure(GpuResidentDocumentError::Atlas(error), Some(edit)));
            },
        };
        let uploads = list_uploads(held.tiles(), &allocations);
        let stats = match target.upload_residents(&uploads) {
            Ok(stats) => stats,
            Err(error) => {
                release_new(&mut self.atlas, &allocations);
                return Err(edit_failure(GpuResidentDocumentError::Target(error), Some(edit)));
            },
        };
        let made = self.record_structure(edit, metadata, recovery, change, revision);
        Ok(
            (
                layer,
                GpuResidentLayerImportCommit {
                    revision: made.revision,
                    history_id: made.history_id,
                    stats,
                    uploads,
                    evicted_history: made.evicted_history,
                    evicted_spills: made.evicted_spills,
                    freed_spill_bytes: made.freed_spill_bytes,
                    reclamation: made.reclamation,
                },
            ),
        )
    }
}

/// The tiles of every layer of a document, row by row.
pub open spec fn layers_listed(
    document: DocumentModel,
    tiles: Seq<Seq<(TileCoord, Seq<LinearRgba>)>>,
) -> bool {
    &&& tiles.len() == document.metadata.layers.len()
    &&& forall|i: int|
        #![trigger tiles[i]]
        0 <= i < tiles.len() ==> tiles_in_order(tiles[i]) && entries_map(tiles[i])
            == document.rasters[i].tiles
}

pub open spec fn joined_tiles(tiles: Seq<Seq<(TileCoord, Seq<LinearRgba>)>>) -> Seq<
    (TileCoord, Seq<LinearRgba>),
>
    decreases tiles.len(),
{
    if tiles.len() == 0 {
        Seq::empty()
    } else {
        joined_tiles(tiles.drop_last()) + tiles.last()
    }
}

/// The tiles of the first layers, layer by layer.
pub open spec fn joined_keys(
    metadata: MetadataModel,
    tiles: Seq<Seq<(TileCoord, Seq<LinearRgba>)>>,
) -> Seq<LayerTileKey>
    decreases tiles.len(),
{
    if tiles.len() == 0 {
        Seq::empty()
    } else {
        joined_keys(metadata, tiles.drop_last()) + tile_keys(
            metadata.layers[tiles.len() - 1].id,
            tiles.last(),
        )
    }
}

/// A document that was brought to the device.
#[derive(Debug)]
pub struct GpuResidentDocumentBootstrap {
    pub(crate) document: GpuResidentDocument,
    pub(crate) stats: GpuDocumentResidentUploadStats,
    pub(crate) uploads: Vec<GpuDocumentResidentUpload>,
}

impl GpuResidentDocumentBootstrap {
    pub open(crate) spec fn wf(self) -> bool {
        self.document.wf()
    }

    pub open(crate) spec fn spec_document(self) -> ResidentModel {
        self.document@
    }

    pub open(crate) spec fn spec_stats(self) -> GpuDocumentResidentUploadStats {
        self.stats
    }

    pub open(crate) spec fn spec_uploads(self) -> Seq<GpuDocumentResidentUpload> {
        self.uploads@
    }

    pub fn document(&self) -> (document: &GpuResidentDocument)
        requires
            self.wf(),
        ensures
            document.wf(),
            document@ == self.spec_document(),
    {
        &self.document
    }

    pub fn stats(&self) -> (stats: GpuDocumentResidentUploadStats)
        ensures
            stats == self.spec_stats(),
    {
        self.stats
    }

    /// What has to be brought to the device.
    pub fn uploads(&self) -> (uploads: &Vec<GpuDocumentResidentUpload>)
        ensures
            uploads@ == self.spec_uploads(),
    {
        &self.uploads
    }

    pub fn into_document(self) -> (document: GpuResidentDocument)
        requires
            self.wf(),
        ensures
            document.wf(),
            document@ == self.spec_document(),
    {
        self.document
    }
}

/// The mirror of a document on the CPU.
pub open spec fn mirror_of(document: DocumentModel) -> MirrorModel {
    MirrorModel {
        revision: document.metadata.revision,
        geometry: document.metadata.geometry,
        tiles: document_tiles(document, document.metadata.layers.len() as int),
    }
}

/// What comes of placing the tiles of a document.
pub open(crate) spec fn bootstrap_reported(
    document: DocumentModel,
    target: TargetModel,
    limits: GpuResidentDocumentLimits,
    tiles: Seq<Seq<(TileCoord, Seq<LinearRgba>)>>,
    result: Result<GpuResidentDocumentBootstrap, GpuResidentDocumentError>,
    target_after: TargetModel,
) -> bool {
    let fresh = fresh_document(
        document.metadata,
        target.layout,
        target.id,
        mirror_of(document),
        limits,
    );
    match allocate_all(
        target.layout@,
        Seq::empty(),
        joined_keys(document.metadata, tiles),
    ) {
        None => {
            &&& result matches Err(error) && error == GpuResidentDocumentError::Atlas(
                AtlasError::CapacityExhausted { capacity: target.layout@.capacity() as u32 },
            )
            &&& target_after == target
        },
        Some((places, allocations)) => match destination_error(target, allocated(allocations)) {
            Some(expected) => {
                &&& result matches Err(error) && error == GpuResidentDocumentError::Target(
                    expected,
                )
                &&& target_after == target
            },
            None => {
                &&& result matches Ok(bootstrap)
                &&& bootstrap.wf()
                &&& bootstrap.spec_document() == (ResidentModel { places, ..fresh })
                &&& bootstrap.spec_stats().tiles == bootstrap.spec_uploads().len()
                &&& uploads_match(joined_tiles(tiles), allocations, bootstrap.spec_uploads())
                &&& target_after == installed(target, allocated(allocations))
            },
        },
    }
}

impl GpuResidentDocument {
    /// Brings a document to the device.
    #[verifier::loop_isolation(false)]
    pub fn from_cpu_document(
        document: &Document,
        target: &mut GpuDocumentTarget,
        limits: GpuResidentDocumentLimits,
    ) -> (bootstrap: Result<GpuResidentDocumentBootstrap, GpuResidentDocumentError>)
        requires
            document.wf(),
            old(target).wf(),
        ensures
            final(target).wf(),
            match tile_size_error(document@.metadata, old(target)@.layout) {
                Some(expected) => {
                    &&& bootstrap matches Err(error) && error == expected
                    &&& final(target)@ == old(target)@
                },
                None => match limits_error(limits) {
                    Some(expected) => {
                        &&& bootstrap matches Err(error) && error == expected
                        &&& final(target)@ == old(target)@
                    },
                    None => exists|tiles: Seq<Seq<(TileCoord, Seq<LinearRgba>)>>|
                        {
                            &&& #[trigger] layers_listed(document@, tiles)
                            &&& bootstrap_reported(
                                document@,
                                old(target)@,
                                limits,
                                tiles,
                                bootstrap,
                                final(target)@,
                            )
                        },
                },
            },
    {
        let metadata = document.metadata().duplicate();
        let mirror = GpuCpuMirror::from_document(document);
        let mut resident = match GpuResidentDocument::new_with_mirror(
            metadata,
            target.layout(),
            target.id(),
            mirror,
            limits,
        ) {
            Ok(resident) => resident,
            Err(error) => {
                return Err(error);
            },
        };
        let ghost fresh = resident@;
        let layers = document.layers();
        let ghost mut listed: Seq<Seq<(TileCoord, Seq<LinearRgba>)>> = Seq::empty();
        let mut keys: Vec<LayerTileKey> = Vec::new();
        let mut tiles: Vec<RasterTile> = Vec::new();
        let mut i: usize = 0;
        assert(tile_entries(tiles@) =~= joined_tiles(listed));
        while i < layers.len()
            invariant
                i <= layers@.len(),
                layer_models(layers@) == document@.metadata.layers,
                listed.len() == i,
                forall|k: int|
                    #![trigger listed[k]]
                    0 <= k < i ==> tiles_in_order(listed[k]) && entries_map(listed[k])
                        == document@.rasters[k].tiles,
                keys@ == joined_keys(document@.metadata, listed),
                tile_entries(tiles@) == joined_tiles(listed),
                keys@.len() == tiles@.len(),
            decreases layers@.len() - i,
        {
            let layer = layers[i].id();
            assert(layer_models(layers@)[i as int].id == layer);
            let mut stored = ordered_tiles(&document.rasters[i]);
            assert(document.rasters@[i as int]@ == document@.rasters[i as int]);
            let ghost entries = tile_entries(stored@);
            let ghost before = listed;
            let mut added = list_tile_keys(layer, &stored);
            let ghost held = keys@;
            let ghost kept = tiles@;
            let ghost taken = stored@;
            keys.append(&mut added);
            tiles.append(&mut stored);
            proof {
                listed = listed.push(entries);
                assert(listed.drop_last() =~= before);
                assert(keys@ =~= joined_keys(document@.metadata, listed));
                assert(tiles@ =~= kept + taken);
                assert(tile_entries(tiles@) =~= joined_tiles(listed));
            }
            i += 1;
        }
        assert(layers_listed(document@, listed));
        proof {
            lemma_one_each(target@.layout@, Seq::empty(), keys@);
        }
        let allocations = match resident.atlas.allocate_batch(&keys) {
            Ok(allocations) => allocations,
            Err(error) => {
                return Err(GpuResidentDocumentError::Atlas(error));
            },
        };
        let uploads = list_uploads(&tiles, &allocations);
        let stats = match target.upload_residents(&uploads) {
            Ok(stats) => stats,
            Err(error) => {
                return Err(GpuResidentDocumentError::Target(error));
            },
        };
        Ok(GpuResidentDocumentBootstrap { document: resident, stats, uploads })
    }
}

} // verus!
