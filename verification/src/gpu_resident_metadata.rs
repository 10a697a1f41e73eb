//! Edits of the layer records of a resident document.

use crate::document::{DocumentRevision, LayerId};
use crate::document_metadata::{
    create_edit, delete_edit, edit_applied, has_layer, move_edit, name_edit, opacity_edit,
    visibility_edit, DocumentMetadata, DocumentMetadataEdit, DocumentMetadataEditDirection,
    DocumentMetadataError, EditModel, MetadataModel,
};
use crate::gpu_cpu_mirror::{layer_tiles, MirrorModel};
use crate::gpu_document_history::{
    any_references, entry_models, raster_ids, EntryModel, GpuDocumentHistoryError,
    GpuHistoryDirection, GpuHistoryEntry, GpuHistoryEntryKind, GpuHistoryId, PayloadModel,
};
use crate::gpu_document_mirror_dispatcher::{
    structure_error, structure_registered, DispatcherModel, StructuralModel,
};
use crate::gpu_history_recovery::{
    spill_bytes, spill_models, GpuHistoryRecoveryEntry, SpillModel,
};
use crate::gpu_layer_residents::{layer_residents, places_without};
use crate::gpu_mirror_reconciler::ReconcilerModel;
use crate::gpu_mirror_structure::{with_layer, GpuMirrorStructure, StructureModel};
use crate::gpu_recovery_replay::{command_byte_len, GpuRasterRecoveryCommand};
use crate::gpu_resident_document::{
    GpuResidentDocument, GpuResidentDocumentError, ResidentModel,
};
use crate::gpu_structural_recovery::{
    PreparedGpuStructuralRecoveryRecord, PreparedStructuralModel,
};
use vstd::pervasive::unreached;
use vstd::prelude::*;

verus! {

/// What was given up with layers that nothing refers to any more.
#[derive(Clone, Copy, Debug, PartialEq, Eq, Structural)]
pub struct GpuResidentLayerReclamation {
    pub layers: usize,
    pub atlas_tiles: usize,
    pub mirror_tiles_retired_immediately: usize,
}

pub open spec fn nothing_reclaimed() -> GpuResidentLayerReclamation {
    GpuResidentLayerReclamation {
        layers: 0,
        atlas_tiles: 0,
        mirror_tiles_retired_immediately: 0,
    }
}

impl Default for GpuResidentLayerReclamation {
    fn default() -> (reclamation: Self)
        ensures
            reclamation == nothing_reclaimed(),
    {
        GpuResidentLayerReclamation {
            layers: 0,
            atlas_tiles: 0,
            mirror_tiles_retired_immediately: 0,
        }
    }
}

pub open spec fn counted(a: usize, b: int) -> usize {
    if a + b <= usize::MAX {
        (a + b) as usize
    } else {
        usize::MAX
    }
}

fn add_count(a: usize, b: usize) -> (sum: usize)
    ensures
        sum == counted(a, b as int),
{
    if a <= usize::MAX - b {
        a + b
    } else {
        usize::MAX
    }
}

/// The mirror once a layer is dropped, which happens when no revision is on its way.
pub open spec fn mirror_retired(mirror: DispatcherModel, layer: LayerId) -> DispatcherModel {
    if mirror.queue.len() == 0 {
        DispatcherModel {
            reconciler: ReconcilerModel {
                mirror: MirrorModel {
                    tiles: with_layer(mirror.reconciler.mirror.tiles, layer, Map::empty()),
                    ..mirror.reconciler.mirror
                },
                ..mirror.reconciler
            },
            ..mirror
        }
    } else {
        DispatcherModel { retiring: mirror.retiring.push(layer), ..mirror }
    }
}

/// How many tiles the mirror drops at once.
pub open spec fn tiles_retired(mirror: DispatcherModel, layer: LayerId) -> int {
    if mirror.queue.len() == 0 {
        layer_tiles(mirror.reconciler.mirror.tiles, layer).dom().len() as int
    } else {
        0
    }
}

/// Whether something still refers to a layer.
pub open spec fn layer_reachable(model: ResidentModel, layer: LayerId) -> bool {
    has_layer(model.metadata.layers, layer) || model.history.references(layer)
}

/// The document and the counts once those of the layers are given up that nothing refers
/// to any more.
pub open spec fn reclaimed(model: ResidentModel, layers: Seq<LayerId>) -> (
    ResidentModel,
    GpuResidentLayerReclamation,
)
    decreases layers.len(),
{
    if layers.len() == 0 {
        (model, nothing_reclaimed())
    } else {
        let (rest, counts) = reclaimed(model, layers.drop_last());
        let layer = layers.last();
        if layer_reachable(rest, layer) {
            (rest, counts)
        } else {
            (
                ResidentModel {
                    places: places_without(rest.places, layer),
                    mirror: mirror_retired(rest.mirror, layer),
                    ..rest
                },
                GpuResidentLayerReclamation {
                    layers: counted(counts.layers, 1),
                    atlas_tiles: counted(
                        counts.atlas_tiles,
                        layer_residents(
                            rest.layout@,
                            rest.places,
                            layer,
                            rest.places.len() as int,
                        ).len() as int,
                    ),
                    mirror_tiles_retired_immediately: counted(
                        counts.mirror_tiles_retired_immediately,
                        tiles_retired(rest.mirror, layer),
                    ),
                },
            )
        }
    }
}

/// The layers that the entries refer to, each once, in order.
pub open spec fn candidate_layers(entries: Seq<EntryModel>, layers: Seq<LayerId>) -> bool {
    &&& forall|i: int, j: int|
        #![trigger layers[i], layers[j]]
        0 <= i < j < layers.len() ==> layers[i].0 < layers[j].0
    &&& forall|layer: LayerId| #[trigger]
        layers.contains(layer) <==> any_references(entries, layer)
}

/// Puts a layer where it belongs in an increasing list.
fn add_layer(layers: &mut Vec<LayerId>, layer: LayerId)
    requires
        forall|i: int, j: int|
            #![trigger old(layers)@[i], old(layers)@[j]]
            0 <= i < j < old(layers)@.len() ==> old(layers)@[i].0 < old(layers)@[j].0,
    ensures
        forall|i: int, j: int|
            #![trigger final(layers)@[i], final(layers)@[j]]
            0 <= i < j < final(layers)@.len() ==> final(layers)@[i].0 < final(layers)@[j].0,
        forall|other: LayerId| #[trigger]
            final(layers)@.contains(other) <==> old(layers)@.contains(other) || other == layer,
{
    let ghost before = layers@;
    let mut at: usize = 0;
    while at < layers.len() && layers[at].get() < layer.get()
        invariant
            layers@ == before,
            at <= before.len(),
            forall|k: int| 0 <= k < at ==> (#[trigger] before[k]).0 < layer.0,
        decreases before.len() - at,
    {
        at += 1;
    }
    if at < layers.len() && layers[at].get() == layer.get() {
        assert(before[at as int] == layer);
        return;
    }
    layers.insert(at, layer);
    proof {
        let after = layers@;
        assert(after =~= before.insert(at as int, layer));
        assert forall|other: LayerId| #[trigger] after.contains(other) <==> before.contains(other)
            || other == layer by {
            if before.contains(other) {
                let k = choose|k: int| 0 <= k < before.len() && before[k] == other;
                if k < at {
                    assert(after[k] == other);
                } else {
                    assert(after[k + 1] == other);
                }
            }
            if other == layer {
                assert(after[at as int] == layer);
            }
            if after.contains(other) && other != layer {
                let k = choose|k: int| 0 <= k < after.len() && after[k] == other;
                if k < at {
                    assert(before[k] == other);
                } else {
                    assert(before[k - 1] == other);
                }
            }
        }
    }
}

#[verifier::loop_isolation(false)]
fn layers_of(entries: &Vec<GpuHistoryEntry>) -> (layers: Vec<LayerId>)
    ensures
        candidate_layers(entry_models(entries@), layers@),
{
    let ghost models = entry_models(entries@);
    let mut layers: Vec<LayerId> = Vec::new();
    let mut i: usize = 0;
    while i < entries.len()
        invariant
            i <= entries@.len(),
            candidate_layers(models.subrange(0, i as int), layers@),
        decreases entries@.len() - i,
    {
        let named = entries[i].referenced_layers();
        let ghost earlier = layers@;
        let mut k: usize = 0;
        while k < named.len()
            invariant
                k <= named@.len(),
                forall|a: int, b: int|
                    #![trigger layers@[a], layers@[b]]
                    0 <= a < b < layers@.len() ==> layers@[a].0 < layers@[b].0,
                forall|layer: LayerId| #[trigger]
                    layers@.contains(layer) <==> earlier.contains(layer) || named@.subrange(
                        0,
                        k as int,
                    ).contains(layer),
            decreases named@.len() - k,
        {
            let ghost held = layers@;
            let layer = named[k];
            add_layer(&mut layers, layer);
            proof {
                let grown = named@.subrange(0, k as int + 1);
                let short = named@.subrange(0, k as int);
                assert forall|other: LayerId| #[trigger]
                    layers@.contains(other) <==> earlier.contains(other) || grown.contains(
                        other,
                    ) by {
                    assert(grown =~= short.push(layer));
                    if short.contains(other) {
                        let p = choose|p: int| 0 <= p < short.len() && short[p] == other;
                        assert(grown[p] == other);
                    }
                    assert(grown[k as int] == layer);
                    if grown.contains(other) && other != layer {
                        let p = choose|p: int| 0 <= p < grown.len() && grown[p] == other;
                        assert(short[p] == other);
                    }
                }
            }
            k += 1;
        }
        proof {
            let shorter = models.subrange(0, i as int);
            let longer = models.subrange(0, i as int + 1);
            assert(named@.subrange(0, k as int) =~= named@);
            assert forall|layer: LayerId| #[trigger]
                layers@.contains(layer) <==> any_references(longer, layer) by {
                if any_references(longer, layer) {
                    let p = choose|p: int|
                        0 <= p < longer.len() && (#[trigger] longer[p]).references(layer);
                    if p < i {
                        assert(shorter[p].references(layer));
                    }
                }
                if any_references(shorter, layer) {
                    let p = choose|p: int|
                        0 <= p < shorter.len() && (#[trigger] shorter[p]).references(layer);
                    assert(longer[p].references(layer));
                }
                if models[i as int].references(layer) {
                    assert(longer[i as int].references(layer));
                }
            }
        }
        i += 1;
    }
    assert(models.subrange(0, i as int) =~= models);
    layers
}

/// What a change of the document made known.
pub struct CommitReport {
    pub revision: DocumentRevision,
    pub history_id: GpuHistoryId,
    pub evicted_history: Seq<EntryModel>,
    pub evicted_spills: Seq<SpillModel>,
    pub freed_spill_bytes: int,
    pub reclamation: GpuResidentLayerReclamation,
}

#[derive(Debug)]
pub struct GpuResidentMetadataCommit {
    pub revision: DocumentRevision,
    pub history_id: GpuHistoryId,
    pub evicted_history: Vec<GpuHistoryEntry>,
    pub evicted_spills: Vec<GpuHistoryRecoveryEntry>,
    pub freed_spill_bytes: u64,
    pub reclamation: GpuResidentLayerReclamation,
}

impl View for GpuResidentMetadataCommit {
    type V = CommitReport;

    open(crate) spec fn view(&self) -> CommitReport {
        CommitReport {
            revision: self.revision,
            history_id: self.history_id,
            evicted_history: entry_models(self.evicted_history@),
            evicted_spills: spill_models(self.evicted_spills@),
            freed_spill_bytes: self.freed_spill_bytes as int,
            reclamation: self.reclamation,
        }
    }
}

#[derive(Debug)]
pub struct GpuResidentMetadataEditFailure {
    pub error: GpuResidentDocumentError,
    pub edit: Option<DocumentMetadataEdit>,
}

#[derive(Debug)]
pub struct GpuResidentMetadataHistorySwapCommit {
    pub revision: DocumentRevision,
    pub history_id: GpuHistoryId,
    pub direction: GpuHistoryDirection,
    pub edit: DocumentMetadataEdit,
    pub evicted_spills: Vec<GpuHistoryRecoveryEntry>,
    pub freed_spill_bytes: u64,
}

impl ResidentModel {
    /// The records after an edit, or why the edit does not apply.
    pub open spec fn edited(self, edit: EditModel) -> Result<MetadataModel, DocumentMetadataError> {
        edit_applied(
            self.metadata,
            edit,
            DocumentMetadataEditDirection::Forward,
            self.next_revision()->0,
        )
    }

    /// Why an edit of the records cannot be recorded, if it cannot.
    pub open spec fn recording_error(self, edit: EditModel) -> Option<GpuResidentDocumentError> {
        if self.next_revision() is None {
            Some(GpuResidentDocumentError::RevisionExhausted)
        } else if let Err(error) = self.edited(edit) {
            Some(GpuResidentDocumentError::Metadata(error))
        } else if let Some(error) = self.history.record_error(0) {
            Some(GpuResidentDocumentError::HistoryRecord(error))
        } else {
            None
        }
    }

    pub open(crate) spec fn metadata_byte_len() -> u64 {
        command_byte_len(GpuRasterRecoveryCommand::MetadataOnly) as u64
    }

    /// Why recovery or the mirror cannot take a revision that changes no pixels.
    pub open(crate) spec fn unchanged_error(self) -> Option<GpuResidentDocumentError> {
        let revision = self.next_revision()->0;
        if let Some(error) = self.recovery.structural_error(
            revision,
            ResidentModel::metadata_byte_len(),
        ) {
            Some(GpuResidentDocumentError::Recovery(error))
        } else if let Some(error) = structure_error(
            self.mirror,
            self.metadata.revision,
            revision,
            StructureModel::Unchanged,
        ) {
            Some(GpuResidentDocumentError::MirrorDispatch(error))
        } else {
            None
        }
    }

    /// Why an edit of the records is refused, if it is.
    pub open(crate) spec fn edit_error(self, edit: EditModel) -> Option<GpuResidentDocumentError> {
        if let Some(error) = self.stroke_error(None) {
            Some(error)
        } else if let Some(error) = self.recording_error(edit) {
            Some(error)
        } else {
            self.unchanged_error()
        }
    }

    /// Recovery and mirror after a revision that changes whole layers or none.
    pub open(crate) spec fn restructured(
        self,
        evicted: Seq<GpuHistoryId>,
        command: GpuRasterRecoveryCommand,
        change: StructureModel,
    ) -> ResidentModel {
        let revision = self.next_revision()->0;
        let mirror = structure_registered(self.mirror, StructuralModel { revision, change });
        ResidentModel {
            mirror,
            recovery: self.recovery.with_structural(
                PreparedStructuralModel {
                    evicted_ids: evicted,
                    source_revision: self.recovery.revision(),
                    revision,
                    byte_len: command_byte_len(command) as u64,
                    command,
                },
            ).base_advanced(mirror.reconciler.mirror),
            ..self
        }
    }

    /// The document after an edit, before layers are given up.
    pub open(crate) spec fn edit_recorded(
        self,
        edit: EditModel,
        command: GpuRasterRecoveryCommand,
        change: StructureModel,
    ) -> ResidentModel {
        ResidentModel {
            metadata: self.edited(edit)->Ok_0,
            history: self.history.recorded(PayloadModel::Metadata(edit), 0),
            ..self.restructured(raster_ids(self.history.evicted(0)), command, change)
        }
    }
}

/// What is reported of an edit, and the document once unreachable layers are given up.
pub open(crate) spec fn edit_reported(
    before: ResidentModel,
    recorded: ResidentModel,
    report: CommitReport,
    after: ResidentModel,
) -> bool {
    let evicted = before.history.evicted(0);
    &&& report.revision == before.next_revision()->0
    &&& report.history_id == GpuHistoryId(before.history.next_id)
    &&& report.evicted_history == evicted
    &&& report.evicted_spills == before.recovery.spills.evicted(raster_ids(evicted))
    &&& report.freed_spill_bytes == spill_bytes(before.recovery.spills.entries) - spill_bytes(
        before.recovery.spills.without_all(raster_ids(evicted)).entries,
    )
    &&& exists|layers: Seq<LayerId>| #[trigger]
        candidate_layers(evicted, layers) && reclaimed(recorded, layers) == (
            after,
            report.reclamation,
        )
}

impl GpuResidentDocument {
    /// Gives up the layers that evicted entries named and that nothing refers to any more.
    pub(crate) fn reclaim_unreachable_layers(&mut self, evicted: &Vec<GpuHistoryEntry>) -> (
    reclamation: GpuResidentLayerReclamation)
        requires
            old(self).wf(),
        ensures
            final(self).wf(),
            exists|layers: Seq<LayerId>| #[trigger]
                candidate_layers(entry_models(evicted@), layers) && reclaimed(
                    old(self)@,
                    layers,
                ) == (final(self)@, reclamation),
    {
        let candidates = layers_of(evicted);
        let ghost layers = candidates@;
        let mut reclamation = GpuResidentLayerReclamation::default();
        let mut i: usize = 0;
        assert(layers.subrange(0, 0) =~= Seq::empty());
        while i < candidates.len()
            invariant
                layers == candidates@,
                i <= layers.len(),
                self.wf(),
                reclaimed(old(self)@, layers.subrange(0, i as int)) == (self@, reclamation),
            decreases layers.len() - i,
        {
            let layer = candidates[i];
            assert(layers.subrange(0, i as int + 1).drop_last() =~= layers.subrange(0, i as int));
            if !self.metadata.contains_layer(layer) && !self.history.references_layer(layer) {
                let released = self.atlas.release_layer(layer);
                let retired: usize = self.mirror.retire_layer_when_idle(layer);
                reclamation.layers = add_count(reclamation.layers, 1);
                reclamation.atlas_tiles = add_count(reclamation.atlas_tiles, released.len());
                reclamation.mirror_tiles_retired_immediately =
                add_count(reclamation.mirror_tiles_retired_immediately, retired);
            }
            i += 1;
        }
        assert(layers.subrange(0, i as int) =~= layers);
        reclamation
    }

    /// Makes an edit of the records the next revision, and keeps it for undo.
    pub fn apply_metadata_edit(&mut self, edit: DocumentMetadataEdit) -> (commit: Result<
        GpuResidentMetadataCommit,
        Box<GpuResidentMetadataEditFailure>,
    >)
        requires
            old(self).wf(),
        ensures
            final(self).wf(),
            match commit {
                Ok(commit) => {
                    &&& old(self)@.edit_error(edit@) is None
                    &&& edit_reported(
                        old(self)@,
                        old(self)@.edit_recorded(
                            edit@,
                            GpuRasterRecoveryCommand::MetadataOnly,
                            StructureModel::Unchanged,
                        ),
                        commit@,
                        final(self)@,
                    )
                },
                Err(failure) => {
                    &&& old(self)@.edit_error(edit@) == Some(failure.error)
                    &&& failure.edit == Some(edit)
                    &&& *final(self) == *old(self)
                },
            },
    {
        match self.check_active_round_stroke(None) {
            Ok(_) => {},
            Err(error) => {
                return Err(Box::new(GpuResidentMetadataEditFailure { error, edit: Some(edit) }));
            },
        }
        let current = self.revision();
        let revision = match current.checked_next() {
            Some(revision) => revision,
            None => {
                return Err(
                    Box::new(
                        GpuResidentMetadataEditFailure {
                            error: GpuResidentDocumentError::RevisionExhausted,
                            edit: Some(edit),
                        },
                    ),
                );
            },
        };
        let mut metadata = self.metadata.duplicate();
        match metadata.apply_edit(&edit, DocumentMetadataEditDirection::Forward, revision) {
            Ok(_) => {},
            Err(error) => {
                return Err(
                    Box::new(
                        GpuResidentMetadataEditFailure {
                            error: GpuResidentDocumentError::Metadata(error),
                            edit: Some(edit),
                        },
                    ),
                );
            },
        }
        let preview = match self.history.check_metadata_record() {
            Ok(preview) => preview,
            Err(error) => {
                return Err(
                    Box::new(
                        GpuResidentMetadataEditFailure {
                            error: GpuResidentDocumentError::HistoryRecord(error),
                            edit: Some(edit),
                        },
                    ),
                );
            },
        };
        let recovery = match self.recovery.prepare_structural_history_record(
            preview.evicted_raster_ids(),
            revision,
            GpuRasterRecoveryCommand::MetadataOnly,
        ) {
            Ok(recovery) => recovery,
            Err(error) => {
                return Err(
                    Box::new(
                        GpuResidentMetadataEditFailure {
                            error: GpuResidentDocumentError::Recovery(error),
                            edit: Some(edit),
                        },
                    ),
                );
            },
        };
        let change = GpuMirrorStructure::Unchanged;
        match self.mirror.check_structural_revision(current, revision, &change) {
            Ok(_) => {},
            Err(error) => {
                return Err(
                    Box::new(
                        GpuResidentMetadataEditFailure {
                            error: GpuResidentDocumentError::MirrorDispatch(error),
                            edit: Some(edit),
                        },
                    ),
                );
            },
        }
        Ok(self.record_structure(edit, metadata, recovery, change, revision))
    }

    /// Records an edit of which everything was checked.
    pub(crate) fn record_structure(
        &mut self,
        edit: DocumentMetadataEdit,
        metadata: DocumentMetadata,
        recovery: PreparedGpuStructuralRecoveryRecord,
        change: GpuMirrorStructure,
        revision: DocumentRevision,
    ) -> (commit: GpuResidentMetadataCommit)
        requires
            old(self).wf(),
            metadata.wf(),
            recovery.wf(),
            change.wf(),
            old(self)@.next_revision() == Some(revision),
            old(self)@.edited(edit@) == Ok::<MetadataModel, DocumentMetadataError>(metadata@),
            old(self)@.history.record_error(0) is None,
            recovery@ == (PreparedStructuralModel {
                evicted_ids: raster_ids(old(self)@.history.evicted(0)),
                source_revision: old(self)@.recovery.revision(),
                revision,
                byte_len: command_byte_len(recovery@.command) as u64,
                command: recovery@.command,
            }),
            old(self)@.recovery.structural_error(revision, recovery@.byte_len) is None,
            structure_error(
                old(self)@.mirror,
                old(self)@.metadata.revision,
                revision,
                change@,
            ) is None,
        ensures
            final(self).wf(),
            edit_reported(
                old(self)@,
                old(self)@.edit_recorded(edit@, recovery@.command, change@),
                commit@,
                final(self)@,
            ),
    {
        let ghost model = self@;
        let ghost command = recovery@.command;
        let current = self.revision();
        let history = match self.history.record_metadata(edit) {
            Ok(history) => history,
            Err(_) => unreached(),
        };
        let recovered = match self.recovery.commit_structural_history_record(recovery) {
            Ok(recovered) => recovered,
            Err(_) => unreached(),
        };
        let registered = self.mirror.register_structural_revision(current, revision, change);
        assert(registered is Ok);
        self.metadata = metadata;
        self.recovery.advance_structural_mirror(self.mirror.snapshot());
        proof {
            lemma_recorded(model, self@, edit@, command, change@);
        }
        let reclamation = self.reclaim_unreachable_layers(&history.evicted);
        GpuResidentMetadataCommit {
            revision,
            history_id: history.id,
            evicted_history: history.evicted,
            evicted_spills: recovered.evicted_spills,
            freed_spill_bytes: recovered.freed_spill_bytes,
            reclamation,
        }
    }
}

/// After an edit all parts still speak of one canvas and one revision.
proof fn lemma_recorded(
    model: ResidentModel,
    recorded: ResidentModel,
    edit: EditModel,
    command: GpuRasterRecoveryCommand,
    change: StructureModel,
)
    requires
        model.valid(),
        model.recording_error(edit) is None,
        recorded == model.edit_recorded(edit, command, change),
    ensures
        recorded.valid(),
{
}

/// An edit was made.
pub open(crate) spec fn edit_made(
    before: ResidentModel,
    edit: EditModel,
    report: CommitReport,
    after: ResidentModel,
) -> bool {
    &&& before.edit_error(edit) is None
    &&& edit_reported(
        before,
        before.edit_recorded(
            edit,
            GpuRasterRecoveryCommand::MetadataOnly,
            StructureModel::Unchanged,
        ),
        report,
        after,
    )
}

/// An edit was refused and given back.
pub open(crate) spec fn edit_refused(
    before: ResidentModel,
    edit: EditModel,
    failure: GpuResidentMetadataEditFailure,
) -> bool {
    &&& before.edit_error(edit) == Some(failure.error)
    &&& failure.edit matches Some(back) && back@ == edit
}

/// What comes of a change of one layer's records, which may be no change at all.
pub open(crate) spec fn change_reported(
    before: ResidentModel,
    edit: Result<Option<EditModel>, DocumentMetadataError>,
    commit: Result<Option<GpuResidentMetadataCommit>, Box<GpuResidentMetadataEditFailure>>,
    after: ResidentModel,
) -> bool {
    match edit {
        Err(error) => {
            &&& after == before
            &&& commit matches Err(failure) && failure.error == GpuResidentDocumentError::Metadata(
                error,
            ) && failure.edit is None
        },
        Ok(None) => {
            &&& after == before
            &&& commit matches Ok(made) && made is None
        },
        Ok(Some(edit)) => match commit {
            Ok(Some(made)) => edit_made(before, edit, made@, after),
            Ok(None) => false,
            Err(failure) => edit_refused(before, edit, *failure) && after == before,
        },
    }
}

/// Why the next edit in a direction cannot be taken back or made again, if it cannot.
pub open spec fn metadata_swap_kind_error(
    model: ResidentModel,
    direction: GpuHistoryDirection,
) -> Option<GpuResidentDocumentError> {
    if let Some(error) = model.stroke_error(None) {
        Some(error)
    } else if let Some(error) = model.history.pending_error() {
        Some(GpuResidentDocumentError::History(error))
    } else {
        match model.history.top(direction) {
            Some(entry) => if entry.kind() == GpuHistoryEntryKind::Raster {
                Some(
                    GpuResidentDocumentError::History(
                        GpuDocumentHistoryError::EntryKindMismatch {
                            expected: GpuHistoryEntryKind::Metadata,
                            actual: GpuHistoryEntryKind::Raster,
                        },
                    ),
                )
            } else {
                None
            },
            None => None,
        }
    }
}

pub open spec fn edit_direction(direction: GpuHistoryDirection) -> DocumentMetadataEditDirection {
    match direction {
        GpuHistoryDirection::Undo => DocumentMetadataEditDirection::Reverse,
        GpuHistoryDirection::Redo => DocumentMetadataEditDirection::Forward,
    }
}

/// The records after an edit was taken back or made again.
pub open spec fn swapped_metadata(
    model: ResidentModel,
    edit: EditModel,
    direction: GpuHistoryDirection,
) -> Result<MetadataModel, DocumentMetadataError> {
    edit_applied(model.metadata, edit, edit_direction(direction), model.next_revision()->0)
}

/// Why an edit cannot be taken back or made again now, if it cannot.
pub open(crate) spec fn metadata_swap_error(
    model: ResidentModel,
    edit: EditModel,
    direction: GpuHistoryDirection,
) -> Option<GpuResidentDocumentError> {
    if model.next_revision() is None {
        Some(GpuResidentDocumentError::RevisionExhausted)
    } else if let Err(error) = swapped_metadata(model, edit, direction) {
        Some(GpuResidentDocumentError::Metadata(error))
    } else {
        model.unchanged_error()
    }
}

/// The document after an edit was taken back or made again.
pub open(crate) spec fn metadata_swapped(
    model: ResidentModel,
    edit: EditModel,
    direction: GpuHistoryDirection,
) -> ResidentModel {
    ResidentModel {
        metadata: swapped_metadata(model, edit, direction)->Ok_0,
        history: model.history.begun(direction).finished(),
        ..model.restructured(
            Seq::empty(),
            GpuRasterRecoveryCommand::MetadataOnly,
            StructureModel::Unchanged,
        )
    }
}

impl GpuResidentDocument {
    fn make_edit(
        &mut self,
        prepared: Result<Option<DocumentMetadataEdit>, DocumentMetadataError>,
    ) -> (commit: Result<
        Option<GpuResidentMetadataCommit>,
        Box<GpuResidentMetadataEditFailure>,
    >)
        requires
            old(self).wf(),
        ensures
            final(self).wf(),
            change_reported(
                old(self)@,
                match prepared {
                    Ok(Some(edit)) => Ok(Some(edit@)),
                    Ok(None) => Ok(None),
                    Err(error) => Err(error),
                },
                commit,
                final(self)@,
            ),
    {
        match prepared {
            Ok(Some(edit)) => match self.apply_metadata_edit(edit) {
                Ok(commit) => Ok(Some(commit)),
                Err(failure) => Err(failure),
            },
            Ok(None) => Ok(None),
            Err(error) => Err(
                Box::new(
                    GpuResidentMetadataEditFailure {
                        error: GpuResidentDocumentError::Metadata(error),
                        edit: None,
                    },
                ),
            ),
        }
    }

    pub fn set_layer_visibility(&mut self, layer: LayerId, visible: bool) -> (commit: Result<
        Option<GpuResidentMetadataCommit>,
        Box<GpuResidentMetadataEditFailure>,
    >)
        requires
            old(self).wf(),
        ensures
            final(self).wf(),
            change_reported(
                old(self)@,
                visibility_edit(old(self)@.metadata, layer, visible),
                commit,
                final(self)@,
            ),
    {
        let prepared = self.metadata.prepare_layer_visibility(layer, visible);
        self.make_edit(prepared)
    }

    pub fn set_layer_opacity(&mut self, layer: LayerId, opacity: u32) -> (commit: Result<
        Option<GpuResidentMetadataCommit>,
        Box<GpuResidentMetadataEditFailure>,
    >)
        requires
            old(self).wf(),
        ensures
            final(self).wf(),
            change_reported(
                old(self)@,
                opacity_edit(old(self)@.metadata, layer, opacity),
                commit,
                final(self)@,
            ),
    {
        let prepared = self.metadata.prepare_layer_opacity(layer, opacity);
        self.make_edit(prepared)
    }

    pub fn rename_layer(&mut self, layer: LayerId, name: String) -> (commit: Result<
        Option<GpuResidentMetadataCommit>,
        Box<GpuResidentMetadataEditFailure>,
    >)
        requires
            old(self).wf(),
        ensures
            final(self).wf(),
            change_reported(
                old(self)@,
                name_edit(old(self)@.metadata, layer, name@),
                commit,
                final(self)@,
            ),
    {
        let prepared = self.metadata.prepare_layer_name(layer, name);
        self.make_edit(prepared)
    }

    pub fn move_layer(&mut self, layer: LayerId, destination: usize) -> (commit: Result<
        Option<GpuResidentMetadataCommit>,
        Box<GpuResidentMetadataEditFailure>,
    >)
        requires
            old(self).wf(),
        ensures
            final(self).wf(),
            change_reported(
                old(self)@,
                move_edit(old(self)@.metadata, layer, destination),
                commit,
                final(self)@,
            ),
    {
        let prepared = self.metadata.prepare_layer_move(layer, destination);
        self.make_edit(prepared)
    }

    /// Adds an empty layer on top.
    pub fn create_layer(&mut self, name: String) -> (created: Result<
        (LayerId, GpuResidentMetadataCommit),
        Box<GpuResidentMetadataEditFailure>,
    >)
        requires
            old(self).wf(),
        ensures
            final(self).wf(),
            match create_edit(old(self)@.metadata, name@) {
                Err(error) => {
                    &&& final(self)@ == old(self)@
                    &&& created matches Err(failure) && failure.error
                        == GpuResidentDocumentError::Metadata(error) && failure.edit is None
                },
                Ok(edit) => match created {
                    Ok((layer, commit)) => layer == edit.layer() && edit_made(
                        old(self)@,
                        edit,
                        commit@,
                        final(self)@,
                    ),
                    Err(failure) => edit_refused(old(self)@, edit, *failure) && final(self)@
                        == old(self)@,
                },
            },
    {
        let edit = match self.metadata.prepare_create_layer(name) {
            Ok(edit) => edit,
            Err(error) => {
                return Err(
                    Box::new(
                        GpuResidentMetadataEditFailure {
                            error: GpuResidentDocumentError::Metadata(error),
                            edit: None,
                        },
                    ),
                );
            },
        };
        let layer = edit.layer();
        match self.apply_metadata_edit(edit) {
            Ok(commit) => Ok((layer, commit)),
            Err(failure) => Err(failure),
        }
    }

    pub fn delete_layer(&mut self, layer: LayerId) -> (commit: Result<
        GpuResidentMetadataCommit,
        Box<GpuResidentMetadataEditFailure>,
    >)
        requires
            old(self).wf(),
        ensures
            final(self).wf(),
            match delete_edit(old(self)@.metadata, layer) {
                Err(error) => {
                    &&& final(self)@ == old(self)@
                    &&& commit matches Err(failure) && failure.error
                        == GpuResidentDocumentError::Metadata(error) && failure.edit is None
                },
                Ok(edit) => match commit {
                    Ok(commit) => edit_made(old(self)@, edit, commit@, final(self)@),
                    Err(failure) => edit_refused(old(self)@, edit, *failure) && final(self)@
                        == old(self)@,
                },
            },
    {
        match self.metadata.prepare_delete_layer(layer) {
            Ok(edit) => self.apply_metadata_edit(edit),
            Err(error) => Err(
                Box::new(
                    GpuResidentMetadataEditFailure {
                        error: GpuResidentDocumentError::Metadata(error),
                        edit: None,
                    },
                ),
            ),
        }
    }

    /// Takes back, or makes again, the next edit of the records. The document without
    /// that edit is a new revision.
    pub fn swap_metadata_history(&mut self, direction: GpuHistoryDirection) -> (swapped: Result<
        Option<GpuResidentMetadataHistorySwapCommit>,
        GpuResidentDocumentError,
    >)
        requires
            old(self).wf(),
        ensures
            final(self).wf(),
            match metadata_swap_kind_error(old(self)@, direction) {
                Some(expected) => swapped == Err::<
                    Option<GpuResidentMetadataHistorySwapCommit>,
                    GpuResidentDocumentError,
                >(expected) && final(self)@ == old(self)@,
                None => match old(self)@.history.top(direction) {
                    None => swapped == Ok::<
                        Option<GpuResidentMetadataHistorySwapCommit>,
                        GpuResidentDocumentError,
                    >(None) && final(self)@ == old(self)@,
                    Some(entry) => {
                        let edit = entry.payload->Metadata_0;
                        match swapped {
                            Ok(Some(commit)) => {
                                &&& metadata_swap_error(old(self)@, edit, direction) is None
                                &&& final(self)@ == metadata_swapped(old(self)@, edit, direction)
                                &&& commit.revision == old(self)@.next_revision()->0
                                &&& commit.history_id == entry.id
                                &&& commit.direction == direction
                                &&& commit.edit@ == edit
                                &&& commit.evicted_spills@.len() == 0
                                &&& commit.freed_spill_bytes == 0
                            },
                            Ok(None) => false,
                            Err(error) => metadata_swap_error(old(self)@, edit, direction) == Some(
                                error,
                            ) && final(self)@ == old(self)@,
                        }
                    },
                },
            },
    {
        match self.check_active_round_stroke(None) {
            Ok(_) => {},
            Err(error) => {
                return Err(error);
            },
        }
        let history_id = match self.history.check_begin(direction) {
            Ok(Some(id)) => id,
            Ok(None) => {
                return Ok(None);
            },
            Err(error) => {
                return Err(GpuResidentDocumentError::History(error));
            },
        };
        let edit = match self.history.next_metadata_edit(direction) {
            Ok(Some(edit)) => edit.duplicate(),
            Ok(None) => unreached(),
            Err(error) => {
                return Err(GpuResidentDocumentError::History(error));
            },
        };
        let current = self.revision();
        let revision = match current.checked_next() {
            Some(revision) => revision,
            None => {
                return Err(GpuResidentDocumentError::RevisionExhausted);
            },
        };
        let way = match direction {
            GpuHistoryDirection::Undo => DocumentMetadataEditDirection::Reverse,
            GpuHistoryDirection::Redo => DocumentMetadataEditDirection::Forward,
        };
        let mut metadata = self.metadata.duplicate();
        match metadata.apply_edit(&edit, way, revision) {
            Ok(_) => {},
            Err(error) => {
                return Err(GpuResidentDocumentError::Metadata(error));
            },
        }
        let none: Vec<GpuHistoryId> = Vec::new();
        let recovery = match self.recovery.prepare_structural_history_record(
            &none,
            revision,
            GpuRasterRecoveryCommand::MetadataOnly,
        ) {
            Ok(recovery) => recovery,
            Err(error) => {
                return Err(GpuResidentDocumentError::Recovery(error));
            },
        };
        let change = GpuMirrorStructure::Unchanged;
        match self.mirror.check_structural_revision(current, revision, &change) {
            Ok(_) => {},
            Err(error) => {
                return Err(GpuResidentDocumentError::MirrorDispatch(error));
            },
        }
        let ghost model = self@;
        let begun = match direction {
            GpuHistoryDirection::Undo => self.history.begin_undo(),
            GpuHistoryDirection::Redo => self.history.begin_redo(),
        };
        assert(begun is Ok);
        let recovered = match self.recovery.commit_structural_history_record(recovery) {
            Ok(recovered) => recovered,
            Err(_) => unreached(),
        };
        let registered = self.mirror.register_structural_revision(current, revision, change);
        assert(registered is Ok);
        let finished = self.history.finish_pending();
        assert(finished is Ok);
        self.metadata = metadata;
        self.recovery.advance_structural_mirror(self.mirror.snapshot());
        proof {
            assert(none@ =~= Seq::empty());
            assert(spill_models(recovered.evicted_spills@).len() == 0);
        }
        Ok(
            Some(
                GpuResidentMetadataHistorySwapCommit {
                    revision,
                    history_id,
                    direction,
                    edit,
                    evicted_spills: recovered.evicted_spills,
                    freed_spill_bytes: recovered.freed_spill_bytes,
                },
            ),
        )
    }
}

} // verus!
