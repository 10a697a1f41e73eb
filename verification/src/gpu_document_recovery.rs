//! Rebuilds a whole document from its metadata and a recovery timeline.

use crate::document::{
    next_free, part_layers, parts_error, Document, DocumentError, DocumentLayerParts, DocumentModel,
    DocumentRevision, LayerId,
};
use crate::document_metadata::{
    has_layer, layer_models, DocumentLayerMetadata, DocumentMetadata, MetadataModel,
};
use crate::gpu_recovery_replay::{
    base_raster, lemma_replay_geometry, raster_recovered, replay_gpu_raster_recovery,
    GpuRasterRecoveryCommand, GpuRasterRecoveryReplayError, GpuRasterRecoveryStats,
    GpuRecoveredRaster,
};
use crate::gpu_recovery_timeline::{GpuRecoveryTimelineSnapshot, TimelineSnapshotModel};
use crate::gpu_revision_tasks::GpuRevisionedPayload;
use crate::gpu_round_recovery::{evaluator_fits, GpuRoundRecoveryCommand, RoundEvaluation};
use crate::raster_layer::RasterLayer;
use crate::stroke::is_fraction;
use vstd::prelude::*;

verus! {

pub type GpuDocumentLayerMetadata = DocumentLayerMetadata;

pub type GpuDocumentMetadataSnapshot = DocumentMetadata;

#[derive(Clone, Copy, Debug, PartialEq, Eq)]
pub enum GpuDocumentRecoverySnapshotError {
    RevisionMismatch { metadata: DocumentRevision, rasters: DocumentRevision },
    GeometryMismatch {
        metadata_dimensions: [u32; 2],
        raster_dimensions: [u32; 2],
        metadata_tile_size: u32,
        raster_tile_size: u32,
    },
}

#[derive(Clone, Copy, Debug, PartialEq, Eq)]
pub enum GpuDocumentRecoveryError {
    Raster { layer: LayerId, error: GpuRasterRecoveryReplayError },
    Document(DocumentError),
}

impl From<DocumentError> for GpuDocumentRecoveryError {
    fn from(error: DocumentError) -> Self {
        GpuDocumentRecoveryError::Document(error)
    }
}

impl vstd::std_specs::convert::FromSpecImpl<DocumentError> for GpuDocumentRecoveryError {
    open spec fn obeys_from_spec() -> bool {
        true
    }

    open spec fn from_spec(error: DocumentError) -> Self {
        GpuDocumentRecoveryError::Document(error)
    }
}

#[derive(Debug)]
pub enum GpuDocumentCheckpointBuildError<E> {
    Recovery(GpuDocumentRecoveryError),
    Checkpoint(E),
}

impl<E> From<GpuDocumentRecoveryError> for GpuDocumentCheckpointBuildError<E> {
    fn from(error: GpuDocumentRecoveryError) -> (result: Self) {
        GpuDocumentCheckpointBuildError::Recovery(error)
    }
}

impl<E> vstd::std_specs::convert::FromSpecImpl<GpuDocumentRecoveryError> for GpuDocumentCheckpointBuildError<E> {
    open spec fn obeys_from_spec() -> bool {
        true
    }

    open spec fn from_spec(error: GpuDocumentRecoveryError) -> Self {
        GpuDocumentCheckpointBuildError::Recovery(error)
    }
}

#[derive(Clone, Copy, Debug, PartialEq, Eq, Structural)]
pub struct GpuDocumentRecoveryStats {
    pub layers_recovered: u32,
    pub command_visits: u64,
    pub commands_applied: u64,
    pub pixels_evaluated: u64,
    pub pixels_changed: u64,
    pub layer_snapshots_applied: u32,
}

pub open spec fn no_stats() -> GpuDocumentRecoveryStats {
    GpuDocumentRecoveryStats {
        layers_recovered: 0,
        command_visits: 0,
        commands_applied: 0,
        pixels_evaluated: 0,
        pixels_changed: 0,
        layer_snapshots_applied: 0,
    }
}

impl Default for GpuDocumentRecoveryStats {
    fn default() -> (stats: Self)
        ensures
            stats == no_stats(),
    {
        GpuDocumentRecoveryStats {
            layers_recovered: 0,
            command_visits: 0,
            commands_applied: 0,
            pixels_evaluated: 0,
            pixels_changed: 0,
            layer_snapshots_applied: 0,
        }
    }
}

/// A sum that stops at the largest number.
pub open spec fn joined_u64(a: u64, b: u64) -> u64 {
    if a + b <= u64::MAX {
        (a + b) as u64
    } else {
        u64::MAX
    }
}

pub open spec fn joined_u32(a: u32, b: u32) -> u32 {
    if a + b <= u32::MAX {
        (a + b) as u32
    } else {
        u32::MAX
    }
}

/// The counts with those of one more layer.
pub open spec fn with_layer_stats(
    stats: GpuDocumentRecoveryStats,
    layer: GpuRasterRecoveryStats,
) -> GpuDocumentRecoveryStats {
    GpuDocumentRecoveryStats {
        layers_recovered: joined_u32(stats.layers_recovered, 1),
        command_visits: joined_u64(stats.command_visits, layer.commands_seen),
        commands_applied: joined_u64(stats.commands_applied, layer.commands_applied),
        pixels_evaluated: joined_u64(stats.pixels_evaluated, layer.pixels_evaluated),
        pixels_changed: joined_u64(stats.pixels_changed, layer.pixels_changed),
        layer_snapshots_applied: joined_u32(
            stats.layer_snapshots_applied,
            layer.layer_snapshots_applied,
        ),
    }
}

/// The counts of several layers.
pub open(crate) spec fn total_stats(layers: Seq<GpuRecoveredRaster>) -> GpuDocumentRecoveryStats
    decreases layers.len(),
{
    if layers.len() == 0 {
        no_stats()
    } else {
        with_layer_stats(total_stats(layers.drop_last()), layers.last().spec_stats())
    }
}

fn add_u64(a: u64, b: u64) -> (sum: u64)
    ensures
        sum == joined_u64(a, b),
{
    if b <= u64::MAX - a {
        a + b
    } else {
        u64::MAX
    }
}

fn add_u32(a: u32, b: u32) -> (sum: u32)
    ensures
        sum == joined_u32(a, b),
{
    if b <= u32::MAX - a {
        a + b
    } else {
        u32::MAX
    }
}

/// Metadata and pixels of one revision that do not belong together, and why.
#[derive(Debug)]
pub struct GpuDocumentRecoverySnapshotFailure {
    pub error: GpuDocumentRecoverySnapshotError,
    pub metadata: GpuDocumentMetadataSnapshot,
    pub rasters: GpuRecoveryTimelineSnapshot<GpuRasterRecoveryCommand>,
}

/// Everything that it takes to rebuild a document as it was at one revision.
#[derive(Debug)]
pub struct GpuDocumentRecoverySnapshot {
    pub(crate) metadata: GpuDocumentMetadataSnapshot,
    pub(crate) rasters: GpuRecoveryTimelineSnapshot<GpuRasterRecoveryCommand>,
}

pub struct RecoverySnapshotModel {
    pub metadata: MetadataModel,
    pub rasters: TimelineSnapshotModel<GpuRasterRecoveryCommand>,
}

impl View for GpuDocumentRecoverySnapshot {
    type V = RecoverySnapshotModel;

    open(crate) spec fn view(&self) -> RecoverySnapshotModel {
        RecoverySnapshotModel { metadata: self.metadata@, rasters: self.rasters@ }
    }
}

/// Why metadata and pixels do not belong together, if they do not.
pub open spec fn pairing_error(
    metadata: MetadataModel,
    rasters: TimelineSnapshotModel<GpuRasterRecoveryCommand>,
) -> Option<GpuDocumentRecoverySnapshotError> {
    if metadata.revision != rasters.target {
        Some(
            GpuDocumentRecoverySnapshotError::RevisionMismatch {
                metadata: metadata.revision,
                rasters: rasters.target,
            },
        )
    } else if metadata.geometry != rasters.base.geometry {
        Some(
            GpuDocumentRecoverySnapshotError::GeometryMismatch {
                metadata_dimensions: [metadata.geometry.width as u32, metadata.geometry.height as u32],
                raster_dimensions: [
                    rasters.base.geometry.width as u32,
                    rasters.base.geometry.height as u32,
                ],
                metadata_tile_size: metadata.geometry.tile_size as u32,
                raster_tile_size: rasters.base.geometry.tile_size as u32,
            },
        )
    } else {
        None
    }
}

/// The commands of a timeline can be replayed.
pub open(crate) spec fn commands_replay(
    rasters: TimelineSnapshotModel<GpuRasterRecoveryCommand>,
) -> bool {
    forall|i: int|
        #![trigger rasters.records[i]]
        0 <= i < rasters.records.len() ==> rasters.records[i].command.wf()
}

/// The layers of the document were rebuilt one by one.
pub open(crate) spec fn layers_rebuilt<
    F: Fn(&GpuRoundRecoveryCommand, &RasterLayer) -> RoundEvaluation,
>(
    evaluate: F,
    snapshot: RecoverySnapshotModel,
    rebuilt: Seq<GpuRecoveredRaster>,
) -> bool {
    &&& rebuilt.len() <= snapshot.metadata.layers.len()
    &&& forall|i: int|
        #![trigger rebuilt[i]]
        0 <= i < rebuilt.len() ==> raster_recovered(
            evaluate,
            snapshot.rasters.base,
            snapshot.rasters.target,
            snapshot.rasters.records,
            snapshot.metadata.layers[i].id,
            Ok(rebuilt[i]),
        )
}

/// The document of the snapshot, with the pixels that were rebuilt.
pub open(crate) spec fn document_of(
    snapshot: RecoverySnapshotModel,
    rebuilt: Seq<GpuRecoveredRaster>,
) -> DocumentModel {
    DocumentModel {
        metadata: MetadataModel {
            next_layer: next_free(snapshot.metadata.layers) as u64,
            ..snapshot.metadata
        },
        rasters: Seq::new(rebuilt.len(), |i: int| rebuilt[i].spec_raster()),
    }
}

/// What comes of rebuilding the document of a snapshot. Every layer is rebuilt in turn; the first one
/// that cannot be rebuilt stops the recovery.
pub open(crate) spec fn document_recovered<
    F: Fn(&GpuRoundRecoveryCommand, &RasterLayer) -> RoundEvaluation,
>(
    evaluate: F,
    snapshot: RecoverySnapshotModel,
    recovered: Result<GpuRecoveredDocument, GpuDocumentRecoveryError>,
) -> bool {
    match recovered {
        Ok(recovered) => exists|rebuilt: Seq<GpuRecoveredRaster>|
            {
                &&& #[trigger] layers_rebuilt(evaluate, snapshot, rebuilt)
                &&& rebuilt.len() == snapshot.metadata.layers.len()
                &&& recovered.wf()
                &&& recovered.spec_document() == document_of(snapshot, rebuilt)
                &&& recovered.spec_stats() == total_stats(rebuilt)
            },
        Err(GpuDocumentRecoveryError::Raster { layer, error }) => exists|
            rebuilt: Seq<GpuRecoveredRaster>,
        |
            {
                &&& #[trigger] layers_rebuilt(evaluate, snapshot, rebuilt)
                &&& rebuilt.len() < snapshot.metadata.layers.len()
                &&& layer == snapshot.metadata.layers[rebuilt.len() as int].id
                &&& raster_recovered(
                    evaluate,
                    snapshot.rasters.base,
                    snapshot.rasters.target,
                    snapshot.rasters.records,
                    layer,
                    Err(error),
                )
            },
        Err(GpuDocumentRecoveryError::Document(_)) => false,
    }
}

/// What comes of building a checkpoint: the document is recovered, and `take_snapshot` has the last
/// word on what is kept of it.
pub open(crate) spec fn checkpoint_built<
    F: Fn(&GpuRoundRecoveryCommand, &RasterLayer) -> RoundEvaluation,
    S,
    E,
    G: Fn(&Document) -> Result<S, E>,
>(
    evaluate: F,
    take_snapshot: G,
    snapshot: RecoverySnapshotModel,
    built: Result<GpuDocumentCheckpoint<S>, GpuDocumentCheckpointBuildError<E>>,
) -> bool {
    match built {
        Ok(checkpoint) => exists|recovered: GpuRecoveredDocument|
            {
                &&& #[trigger] document_recovered(evaluate, snapshot, Ok(recovered))
                &&& take_snapshot.ensures((&recovered.document,), Ok(checkpoint.snapshot))
                &&& checkpoint.revision == snapshot.metadata.revision
                &&& checkpoint.recovery_stats == recovered.spec_stats()
            },
        Err(GpuDocumentCheckpointBuildError::Recovery(error)) => document_recovered(
            evaluate,
            snapshot,
            Err(error),
        ),
        Err(GpuDocumentCheckpointBuildError::Checkpoint(error)) => exists|
            recovered: GpuRecoveredDocument,
        |
            {
                &&& #[trigger] document_recovered(evaluate, snapshot, Ok(recovered))
                &&& take_snapshot.ensures((&recovered.document,), Err(error))
            },
    }
}

#[derive(Debug)]
pub struct GpuRecoveredDocument {
    pub(crate) document: Document,
    pub(crate) stats: GpuDocumentRecoveryStats,
}

impl GpuRecoveredDocument {
    pub open(crate) spec fn wf(self) -> bool {
        self.document.wf()
    }

    pub open(crate) spec fn spec_document(self) -> DocumentModel {
        self.document@
    }

    pub open(crate) spec fn spec_stats(self) -> GpuDocumentRecoveryStats {
        self.stats
    }

    pub fn document(&self) -> (document: &Document)
        requires
            self.wf(),
        ensures
            document.wf(),
            document@ == self.spec_document(),
    {
        &self.document
    }

    pub fn into_document(self) -> (document: Document)
        requires
            self.wf(),
        ensures
            document.wf(),
            document@ == self.spec_document(),
    {
        self.document
    }

    pub fn stats(&self) -> (stats: GpuDocumentRecoveryStats)
        ensures
            stats == self.spec_stats(),
    {
        self.stats
    }
}

/// What is kept of a recovered document, at the revision that it was recovered at.
#[derive(Debug)]
pub struct GpuDocumentCheckpoint<S> {
    pub(crate) revision: DocumentRevision,
    pub(crate) snapshot: S,
    pub(crate) recovery_stats: GpuDocumentRecoveryStats,
}

impl<S> GpuDocumentCheckpoint<S> {
    pub open(crate) spec fn spec_revision(self) -> DocumentRevision {
        self.revision
    }

    pub open(crate) spec fn spec_snapshot(self) -> S {
        self.snapshot
    }

    pub open(crate) spec fn spec_recovery_stats(self) -> GpuDocumentRecoveryStats {
        self.recovery_stats
    }

    pub fn revision(&self) -> (revision: DocumentRevision)
        ensures
            revision == self.spec_revision(),
    {
        self.revision
    }

    pub fn snapshot(&self) -> (snapshot: &S)
        ensures
            *snapshot == self.spec_snapshot(),
    {
        &self.snapshot
    }

    pub fn recovery_stats(&self) -> (stats: GpuDocumentRecoveryStats)
        ensures
            stats == self.spec_recovery_stats(),
    {
        self.recovery_stats
    }
}

impl GpuDocumentRecoverySnapshot {
    pub open(crate) spec fn wf(self) -> bool {
        &&& self.metadata.wf()
        &&& self.rasters.wf()
        &&& commands_replay(self.rasters@)
        &&& pairing_error(self.metadata@, self.rasters@) is None
    }

    /// Pairs metadata with the pixels of the same revision.
    pub fn new(
        metadata: GpuDocumentMetadataSnapshot,
        rasters: GpuRecoveryTimelineSnapshot<GpuRasterRecoveryCommand>,
    ) -> (snapshot: Result<
        GpuDocumentRecoverySnapshot,
        Box<GpuDocumentRecoverySnapshotFailure>,
    >)
        requires
            metadata.wf(),
            rasters.wf(),
            commands_replay(rasters@),
        ensures
            match snapshot {
                Ok(snapshot) => {
                    &&& pairing_error(metadata@, rasters@) is None
                    &&& snapshot.wf()
                    &&& snapshot@ == (RecoverySnapshotModel {
                        metadata: metadata@,
                        rasters: rasters@,
                    })
                },
                Err(failure) => {
                    &&& pairing_error(metadata@, rasters@) == Some(failure.error)
                    &&& failure.metadata == metadata
                    &&& failure.rasters == rasters
                },
            },
    {
        if metadata.revision().get() != rasters.target_revision().get() {
            return Err(
                Box::new(
                    GpuDocumentRecoverySnapshotFailure {
                        error: GpuDocumentRecoverySnapshotError::RevisionMismatch {
                            metadata: metadata.revision(),
                            rasters: rasters.target_revision(),
                        },
                        metadata,
                        rasters,
                    },
                ),
            );
        }
        let raster_dimensions = rasters.base().dimensions();
        let raster_tile_size: u32 = rasters.base().tile_size();
        if metadata.width() != raster_dimensions[0] || metadata.height() != raster_dimensions[1]
            || metadata.tile_size() != raster_tile_size {
            let metadata_dimensions = [metadata.width, metadata.height];
            return Err(
                Box::new(
                    GpuDocumentRecoverySnapshotFailure {
                        error: GpuDocumentRecoverySnapshotError::GeometryMismatch {
                            metadata_dimensions,
                            raster_dimensions,
                            metadata_tile_size: metadata.tile_size(),
                            raster_tile_size,
                        },
                        metadata,
                        rasters,
                    },
                ),
            );
        }
        Ok(GpuDocumentRecoverySnapshot { metadata, rasters })
    }

    pub fn revision(&self) -> (revision: DocumentRevision)
        ensures
            revision == self@.metadata.revision,
    {
        self.metadata.revision
    }

    pub fn metadata(&self) -> (metadata: &GpuDocumentMetadataSnapshot)
        requires
            self.wf(),
        ensures
            metadata.wf(),
            metadata@ == self@.metadata,
    {
        &self.metadata
    }

    pub fn rasters(&self) -> (rasters: &GpuRecoveryTimelineSnapshot<GpuRasterRecoveryCommand>)
        requires
            self.wf(),
        ensures
            rasters.wf(),
            rasters@ == self@.rasters,
    {
        &self.rasters
    }

    /// Rebuilds the document: its layers as the metadata has them, each with the
    /// pixels that the replay gives it.
    pub fn recover_document<F: Fn(&GpuRoundRecoveryCommand, &RasterLayer) -> RoundEvaluation>(
        &self,
        evaluate: &F,
    ) -> (recovered: Result<GpuRecoveredDocument, GpuDocumentRecoveryError>)
        requires
            self.wf(),
            evaluator_fits(*evaluate),
        ensures
            document_recovered(*evaluate, self@, recovered),
    {
        let ghost layers = self@.metadata.layers;
        let ghost mut rebuilt: Seq<GpuRecoveredRaster> = Seq::empty();
        let mut parts: Vec<DocumentLayerParts> = Vec::new();
        let mut stats = GpuDocumentRecoveryStats::default();
        let mut i: usize = 0;
        while i < self.metadata.layers.len()
            invariant
                self.wf(),
                evaluator_fits(*evaluate),
                layers == self@.metadata.layers,
                layers == layer_models(self.metadata.layers@),
                i <= self.metadata.layers@.len(),
                rebuilt.len() == i,
                layers_rebuilt(*evaluate, self@, rebuilt),
                parts@.len() == i,
                forall|k: int|
                    #![trigger parts@[k]]
                    0 <= k < i ==> {
                        &&& crate::document::part_layer(parts@[k]) == layers[k]
                        &&& parts@[k].raster.wf()
                        &&& parts@[k].raster@ == rebuilt[k].spec_raster()
                        &&& parts@[k].raster@.geometry == self@.metadata.geometry
                    },
                stats == total_stats(rebuilt),
            decreases self.metadata.layers@.len() - i,
        {
            let layer = &self.metadata.layers[i];
            assert(layers[i as int] == layer@);
            let recovered = match replay_gpu_raster_recovery(&self.rasters, layer.id, evaluate) {
                Ok(recovered) => recovered,
                Err(error) => {
                    return Err(GpuDocumentRecoveryError::Raster { layer: layer.id, error });
                },
            };
            proof {
                lemma_recovered_geometry(*evaluate, self@.rasters, layer.id, recovered);
            }
            let counts = recovered.stats();
            let ghost before = rebuilt;
            proof {
                rebuilt = rebuilt.push(recovered);
                assert(rebuilt.drop_last() =~= before);
                assert forall|k: int|
                    #![trigger rebuilt[k]]
                    0 <= k < rebuilt.len() implies raster_recovered(
                    *evaluate,
                    self@.rasters.base,
                    self@.rasters.target,
                    self@.rasters.records,
                    layers[k].id,
                    Ok(rebuilt[k]),
                ) by {
                    if k < before.len() {
                        assert(rebuilt[k] == before[k]);
                    }
                }
            }
            stats = GpuDocumentRecoveryStats {
                layers_recovered: add_u32(stats.layers_recovered, 1),
                command_visits: add_u64(stats.command_visits, counts.commands_seen),
                commands_applied: add_u64(stats.commands_applied, counts.commands_applied),
                pixels_evaluated: add_u64(stats.pixels_evaluated, counts.pixels_evaluated),
                pixels_changed: add_u64(stats.pixels_changed, counts.pixels_changed),
                layer_snapshots_applied: add_u32(
                    stats.layer_snapshots_applied,
                    counts.layer_snapshots_applied,
                ),
            };
            let raster = recovered.into_raster();
            parts.push(
                DocumentLayerParts {
                    id: layer.id,
                    name: layer.name.clone(),
                    visible: layer.visible,
                    opacity: layer.opacity,
                    raster,
                },
            );
            i += 1;
        }
        let ghost made = parts@;
        proof {
            assert(part_layers(made) =~= layers);
            lemma_parts_fit(self@.metadata, made, made.len() as int);
        }
        match Document::from_layer_parts_at_revision(
            self.metadata.width,
            self.metadata.height,
            self.metadata.tile_size,
            self.metadata.active_layer,
            parts,
            self.metadata.revision,
        ) {
            Ok(document) => {
                proof {
                    assert(document@.rasters =~= document_of(self@, rebuilt).rasters);
                    assert(document@ == document_of(self@, rebuilt));
                }
                Ok(GpuRecoveredDocument { document, stats })
            },
            Err(error) => Err(GpuDocumentRecoveryError::Document(error)),
        }
    }

    /// Recovers the document and has `take_snapshot` keep what is to be written of it.
    pub fn build_checkpoint<
        F: Fn(&GpuRoundRecoveryCommand, &RasterLayer) -> RoundEvaluation,
        S,
        E,
        G: Fn(&Document) -> Result<S, E>,
    >(&self, evaluate: &F, take_snapshot: &G) -> (built: Result<
        GpuDocumentCheckpoint<S>,
        GpuDocumentCheckpointBuildError<E>,
    >)
        requires
            self.wf(),
            evaluator_fits(*evaluate),
            forall|document: &Document|
                document.wf() ==> #[trigger] take_snapshot.requires((document,)),
        ensures
            checkpoint_built(*evaluate, *take_snapshot, self@, built),
    {
        let recovered = match self.recover_document(evaluate) {
            Ok(recovered) => recovered,
            Err(error) => {
                return Err(GpuDocumentCheckpointBuildError::Recovery(error));
            },
        };
        let revision = recovered.document.revision();
        let stats = recovered.stats;
        match take_snapshot(&recovered.document) {
            Ok(snapshot) => Ok(GpuDocumentCheckpoint { revision, snapshot, recovery_stats: stats }),
            Err(error) => Err(GpuDocumentCheckpointBuildError::Checkpoint(error)),
        }
    }
}

impl GpuRevisionedPayload for GpuDocumentRecoverySnapshot {
    open spec fn spec_revision(&self) -> DocumentRevision {
        self@.metadata.revision
    }

    fn revision(&self) -> (revision: DocumentRevision) {
        self.metadata.revision
    }
}

proof fn lemma_recovered_geometry<
    F: Fn(&GpuRoundRecoveryCommand, &RasterLayer) -> RoundEvaluation,
>(
    evaluate: F,
    rasters: TimelineSnapshotModel<GpuRasterRecoveryCommand>,
    layer: LayerId,
    recovered: GpuRecoveredRaster,
)
    requires
        raster_recovered(
            evaluate,
            rasters.base,
            rasters.target,
            rasters.records,
            layer,
            Ok(recovered),
        ),
    ensures
        recovered.wf(),
        recovered.spec_raster().geometry == rasters.base.geometry,
{
    let evaluations = choose|evaluations: Seq<RoundEvaluation>|
        {
            &&& #[trigger] crate::gpu_recovery_replay::all_answered(
                evaluate,
                layer,
                base_raster(rasters.base, layer),
                rasters.records,
                evaluations,
                rasters.records.len() as int,
            )
            &&& crate::gpu_recovery_replay::replay_reported(
                layer,
                rasters.base,
                rasters.target,
                rasters.records,
                evaluations,
                Ok(recovered),
            )
        };
    lemma_replay_geometry(layer, base_raster(rasters.base, layer), rasters.records, evaluations);
}

/// Layers that stand in a document can be put together again.
proof fn lemma_parts_fit(metadata: MetadataModel, parts: Seq<DocumentLayerParts>, n: int)
    requires
        metadata.valid(),
        0 <= n <= parts.len(),
        part_layers(parts) == metadata.layers,
        forall|k: int|
            0 <= k < parts.len() ==> (#[trigger] parts[k]).raster@.geometry == metadata.geometry,
    ensures
        parts_error(metadata.geometry, parts, n) is None,
    decreases n,
{
    if n > 0 {
        lemma_parts_fit(metadata, parts, n - 1);
        let i = n - 1;
        assert(part_layers(parts)[i] == crate::document::part_layer(parts[i]));
        assert(metadata.layers[i].id.0 < metadata.next_layer);
        assert(is_fraction(metadata.layers[i].opacity));
        let earlier = part_layers(parts.subrange(0, i));
        if has_layer(earlier, parts[i].id) {
            let j = choose|j: int|
                0 <= j < earlier.len() && (#[trigger] earlier[j]).id == parts[i].id;
            assert(metadata.layers[j] == earlier[j]);
            assert(metadata.layers[j].id != metadata.layers[i].id);
        }
    }
}

} // verus!
