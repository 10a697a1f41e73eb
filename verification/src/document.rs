use crate::document_metadata::{
    has_layer, layer_models, layers_distinct, DocumentLayerMetadata, DocumentMetadata,
    DocumentMetadataError, LayerModel, MetadataModel,
};
use crate::raster_layer::{RasterGeometry, RasterLayer, RasterModel};
use crate::stroke::{in_unit_range, is_fraction};
use vstd::prelude::*;

verus! {

/// A number that names one state of a document. Later states have larger numbers.
#[derive(Clone, Copy, Debug, PartialEq, Eq, PartialOrd, Ord, Hash, Structural)]
pub struct DocumentRevision(pub u64);

impl DocumentRevision {
    /// The revision of a document that nobody has edited yet.
    pub fn initial() -> (revision: DocumentRevision)
        ensures
            revision == DocumentRevision(0),
    {
        DocumentRevision(0)
    }

    pub fn from_raw(raw: u64) -> (revision: DocumentRevision)
        ensures
            revision == DocumentRevision(raw),
    {
        DocumentRevision(raw)
    }

    pub fn get(self) -> (raw: u64)
        ensures
            raw == self.0,
    {
        self.0
    }

    /// The revision after this one, while the numbers last.
    pub fn checked_next(self) -> (next: Option<DocumentRevision>)
        ensures
            next == (if self.0 < u64::MAX {
                Some(DocumentRevision((self.0 + 1) as u64))
            } else {
                None
            }),
    {
        if self.0 == u64::MAX {
            None
        } else {
            Some(DocumentRevision(self.0 + 1))
        }
    }
}

/// The identity of one layer, stable across reordering.
#[derive(Clone, Copy, Debug, PartialEq, Eq, PartialOrd, Ord, Hash, Structural)]
pub struct LayerId(pub u64);

/// The number from which on layers hold relief.
pub const MATERIAL_PLANES: u64 = 0x8000_0000_0000_0000;

impl LayerId {
    /// The layer that holds the relief of the paint on this layer.
    pub open spec fn spec_material_plane(self) -> LayerId {
        if self.0 < MATERIAL_PLANES {
            LayerId((self.0 + MATERIAL_PLANES) as u64)
        } else {
            self
        }
    }

    /// The layer that holds the relief of the paint on this layer.
    pub fn material_plane(self) -> (plane: LayerId)
        ensures
            plane == self.spec_material_plane(),
    {
        if self.0 < MATERIAL_PLANES {
            LayerId(self.0 + MATERIAL_PLANES)
        } else {
            self
        }
    }

    pub fn from_raw(raw: u64) -> (layer: LayerId)
        ensures
            layer == LayerId(raw),
    {
        LayerId(raw)
    }

    pub fn get(self) -> (raw: u64)
        ensures
            raw == self.0,
    {
        self.0
    }
}

#[derive(Clone, Copy, Debug, PartialEq, Eq, Structural)]
pub enum DocumentError {
    Metadata(DocumentMetadataError),
    NoLayers,
    LayerGeometryMismatch(LayerId),
    DuplicateLayer(LayerId),
    InvalidOpacity(LayerId),
    LayerIdExhausted,
    LayerNotFound(LayerId),
}

/// What makes up one layer of a document.
#[derive(Debug)]
pub struct DocumentLayerParts {
    pub id: LayerId,
    pub name: String,
    pub visible: bool,
    pub opacity: u32,
    pub raster: RasterLayer,
}

pub open spec fn part_layer(part: DocumentLayerParts) -> LayerModel {
    LayerModel {
        id: part.id,
        name: part.name@,
        visible: part.visible,
        opacity: part.opacity,
    }
}

pub open spec fn part_layers(parts: Seq<DocumentLayerParts>) -> Seq<LayerModel> {
    Seq::new(parts.len(), |i: int| part_layer(parts[i]))
}

/// A document whose pixels are all in main memory.
#[derive(Debug)]
pub struct Document {
    pub(crate) metadata: DocumentMetadata,
    pub(crate) rasters: Vec<RasterLayer>,
}

pub struct DocumentModel {
    pub metadata: MetadataModel,
    pub rasters: Seq<RasterModel>,
}

pub open spec fn raster_models(rasters: Seq<RasterLayer>) -> Seq<RasterModel> {
    Seq::new(rasters.len(), |i: int| rasters[i]@)
}

impl View for Document {
    type V = DocumentModel;

    open(crate) spec fn view(&self) -> DocumentModel {
        DocumentModel { metadata: self.metadata@, rasters: raster_models(self.rasters@) }
    }
}

/// What is wrong with the `i`th of the layers that are to make a document, if anything.
pub open spec fn part_error(
    geometry: RasterGeometry,
    parts: Seq<DocumentLayerParts>,
    i: int,
) -> Option<DocumentError> {
    let part = parts[i];
    if part.raster@.geometry != geometry {
        Some(DocumentError::LayerGeometryMismatch(part.id))
    } else if has_layer(part_layers(parts.subrange(0, i)), part.id) {
        Some(DocumentError::DuplicateLayer(part.id))
    } else if !is_fraction(part.opacity) {
        Some(DocumentError::InvalidOpacity(part.id))
    } else if part.id.0 == u64::MAX {
        Some(DocumentError::LayerIdExhausted)
    } else {
        None
    }
}

/// What is wrong with the first of the first `n` layers that is wrong.
pub open spec fn parts_error(
    geometry: RasterGeometry,
    parts: Seq<DocumentLayerParts>,
    n: int,
) -> Option<DocumentError>
    decreases n,
{
    if n <= 0 {
        None
    } else {
        match parts_error(geometry, parts, n - 1) {
            Some(error) => Some(error),
            None => part_error(geometry, parts, n - 1),
        }
    }
}

/// Why the layers make no document, if they do not.
pub open spec fn assembly_error(
    geometry: RasterGeometry,
    parts: Seq<DocumentLayerParts>,
    active: LayerId,
) -> Option<DocumentError> {
    if parts.len() == 0 {
        Some(DocumentError::NoLayers)
    } else if let Some(error) = parts_error(geometry, parts, parts.len() as int) {
        Some(error)
    } else if !has_layer(part_layers(parts), active) {
        Some(DocumentError::LayerNotFound(active))
    } else {
        None
    }
}

/// A number above that of every layer.
pub open spec fn next_free(layers: Seq<LayerModel>) -> int
    decreases layers.len(),
{
    if layers.len() == 0 {
        1
    } else {
        let rest = next_free(layers.drop_last());
        if layers.last().id.0 < rest {
            rest
        } else {
            layers.last().id.0 + 1
        }
    }
}

proof fn lemma_next_free(layers: Seq<LayerModel>, i: int)
    requires
        0 <= i < layers.len(),
    ensures
        layers[i].id.0 < next_free(layers),
    decreases layers.len(),
{
    if i < layers.len() - 1 {
        lemma_next_free(layers.drop_last(), i);
    }
}

proof fn lemma_parts_fail(
    geometry: RasterGeometry,
    parts: Seq<DocumentLayerParts>,
    at: int,
    n: int,
)
    requires
        0 <= at <= n,
        parts_error(geometry, parts, at) is Some,
    ensures
        parts_error(geometry, parts, n) == parts_error(geometry, parts, at),
    decreases n - at,
{
    if at < n {
        lemma_parts_fail(geometry, parts, at + 1, n);
    }
}

impl Document {
    /// There are as many rasters as layers, all of the size of the canvas.
    pub open(crate) spec fn wf(self) -> bool {
        &&& self.metadata.wf()
        &&& self.rasters@.len() == self.metadata@.layers.len()
        &&& forall|i: int|
            0 <= i < self.rasters@.len() ==> (#[trigger] self.rasters@[i]).wf()
                && self.rasters@[i]@.geometry == self.metadata@.geometry
    }

    /// A document with one empty layer.
    pub fn new(width: u32, height: u32, tile_size: u32) -> (document: Result<
        Document,
        DocumentError,
    >)
        ensures
            ({
                let geometry = RasterGeometry {
                    width: width as int,
                    height: height as int,
                    tile_size: tile_size as int,
                };
                match document {
                    Ok(document) => {
                        &&& geometry.valid()
                        &&& document.wf()
                        &&& document@.metadata == crate::document_metadata::blank_metadata(
                            geometry,
                            DocumentRevision(0),
                        )
                        &&& document@.rasters == seq![
                            RasterModel {
                                geometry,
                                tiles: Map::empty(),
                                gesture: None,
                                next_gesture: 1,
                                undo_depth: 0,
                            },
                        ]
                    },
                    Err(error) => !geometry.valid() && error == DocumentError::Metadata(
                        if width == 0 || height == 0 {
                            DocumentMetadataError::EmptyCanvas
                        } else if tile_size == 0 {
                            DocumentMetadataError::InvalidTileSize
                        } else {
                            DocumentMetadataError::TileStorageOverflow
                        },
                    ),
                }
            }),
    {
        let metadata = match DocumentMetadata::new_blank(
            width,
            height,
            tile_size,
            DocumentRevision::initial(),
        ) {
            Ok(metadata) => metadata,
            Err(error) => {
                return Err(DocumentError::Metadata(error));
            },
        };
        match RasterLayer::new(width, height, tile_size) {
            Ok(raster) => {
                let mut rasters: Vec<RasterLayer> = Vec::new();
                rasters.push(raster);
                let document = Document { metadata, rasters };
                assert(document@.rasters =~= seq![raster@]);
                Ok(document)
            },
            Err(_) => Err(DocumentError::NoLayers),
        }
    }

    /// Puts a document together from its layers.
    #[verifier::loop_isolation(false)]
    pub fn from_layer_parts_at_revision(
        width: u32,
        height: u32,
        tile_size: u32,
        active_layer: LayerId,
        parts: Vec<DocumentLayerParts>,
        revision: DocumentRevision,
    ) -> (document: Result<Document, DocumentError>)
        requires
            forall|i: int| 0 <= i < parts@.len() ==> (#[trigger] parts@[i]).raster.wf(),
        ensures
            ({
                let geometry = RasterGeometry {
                    width: width as int,
                    height: height as int,
                    tile_size: tile_size as int,
                };
                match document {
                    Ok(document) => {
                        &&& assembly_error(geometry, parts@, active_layer) is None
                        &&& document.wf()
                        &&& document@.metadata == (MetadataModel {
                            geometry,
                            revision,
                            layers: part_layers(parts@),
                            active: active_layer,
                            next_layer: next_free(part_layers(parts@)) as u64,
                        })
                        &&& document@.rasters == Seq::new(
                            parts@.len(),
                            |i: int| parts@[i].raster@,
                        )
                    },
                    Err(error) => assembly_error(geometry, parts@, active_layer) == Some(error),
                }
            }),
    {
        let ghost geometry = RasterGeometry {
            width: width as int,
            height: height as int,
            tile_size: tile_size as int,
        };
        let ghost all = parts@;
        let ghost named = part_layers(all);
        if parts.len() == 0 {
            return Err(DocumentError::NoLayers);
        }
        let count: usize = parts.len();
        let mut remaining = parts;
        let mut layers: Vec<DocumentLayerMetadata> = Vec::new();
        let mut rasters: Vec<RasterLayer> = Vec::new();
        let mut next_layer_id: u64 = 1;
        let mut active_found = false;
        let mut i: usize = 0;
        assert(layer_models(layers@) =~= named.subrange(0, 0));
        assert(remaining@ =~= all.subrange(0, all.len() as int));
        while i < count
            invariant
                count == all.len(),
                i <= count,
                remaining@ == all.subrange(i as int, all.len() as int),
                layer_models(layers@) == named.subrange(0, i as int),
                rasters@.len() == i,
                forall|k: int|
                    0 <= k < i ==> #[trigger] rasters@[k] == all[k].raster,
                parts_error(geometry, all, i as int) is None,
                layers_distinct(named.subrange(0, i as int)),
                forall|k: int|
                    0 <= k < i ==> all[k].raster@.geometry == geometry && is_fraction(
                        (#[trigger] all[k]).opacity,
                    ),
                next_layer_id == next_free(named.subrange(0, i as int)),
                active_found == has_layer(named.subrange(0, i as int), active_layer),
            decreases count - i,
        {
            let ghost before = named.subrange(0, i as int);
            let part = remaining.remove(0);
            proof {
                assert(part == all[i as int]);
                assert(remaining@ =~= all.subrange(i as int + 1, all.len() as int));
                assert(part_layers(all.subrange(0, i as int)) =~= before);
                if part_error(geometry, all, i as int) is Some {
                    lemma_parts_fail(geometry, all, i as int + 1, all.len() as int);
                }
            }
            if part.raster.width() != width || part.raster.height() != height
                || part.raster.tile_size() != tile_size {
                return Err(DocumentError::LayerGeometryMismatch(part.id));
            }
            let mut k: usize = 0;
            while k < layers.len()
                invariant
                    k <= layers@.len(),
                    forall|j: int| 0 <= j < k ==> (#[trigger] before[j]).id != part.id,
                decreases layers@.len() - k,
            {
                assert(before[k as int] == layers@[k as int]@);
                if layers[k].id.0 == part.id.0 {
                    assert(before[k as int].id == part.id);
                    return Err(DocumentError::DuplicateLayer(part.id));
                }
                k += 1;
            }
            if !in_unit_range(part.opacity) {
                return Err(DocumentError::InvalidOpacity(part.id));
            }
            if part.id.0 == u64::MAX {
                return Err(DocumentError::LayerIdExhausted);
            }
            if part.id.0 >= next_layer_id {
                next_layer_id = part.id.0 + 1;
            }
            if part.id.0 == active_layer.0 {
                active_found = true;
            }
            let ghost was = layers@;
            let layer = DocumentLayerMetadata {
                id: part.id,
                name: part.name,
                visible: part.visible,
                opacity: part.opacity,
            };
            layers.push(layer);
            rasters.push(part.raster);
            proof {
                let after = named.subrange(0, i as int + 1);
                assert(after.drop_last() =~= before);
                assert(after.last() == layer@);
                assert(layer_models(layers@) =~= after);
                assert forall|a: int, b: int|
                    #![trigger after[a], after[b]]
                    0 <= a < b < after.len() implies after[a].id != after[b].id by {
                    assert(after[a] == before[a]);
                    if b < before.len() {
                        assert(after[b] == before[b]);
                    }
                }
                if has_layer(before, active_layer) {
                    let a = choose|a: int|
                        0 <= a < before.len() && (#[trigger] before[a]).id == active_layer;
                    assert(after[a].id == active_layer);
                }
                if part.id == active_layer {
                    assert(after[i as int].id == active_layer);
                }
                if has_layer(after, active_layer) && part.id != active_layer {
                    let a = choose|a: int|
                        0 <= a < after.len() && (#[trigger] after[a]).id == active_layer;
                    assert(before[a].id == active_layer);
                }
            }
            i += 1;
        }
        assert(named.subrange(0, i as int) =~= named);
        if !active_found {
            return Err(DocumentError::LayerNotFound(active_layer));
        }
        let metadata = DocumentMetadata {
            width,
            height,
            tile_size,
            revision,
            layers,
            active_layer,
            next_layer_id,
        };
        proof {
            assert(all[0].raster@.geometry == geometry);
            assert forall|k: int| 0 <= k < metadata@.layers.len() implies (
            #[trigger] metadata@.layers[k]).id.0 < metadata@.next_layer && is_fraction(
                metadata@.layers[k].opacity,
            ) by {
                lemma_next_free(named, k);
                assert(is_fraction(all[k].opacity));
            }
        }
        let document = Document { metadata, rasters };
        assert(document@.rasters =~= Seq::new(all.len(), |i: int| all[i].raster@));
        Ok(document)
    }

    pub fn metadata(&self) -> (metadata: &DocumentMetadata)
        requires
            self.wf(),
        ensures
            metadata.wf(),
            metadata@ == self@.metadata,
    {
        &self.metadata
    }

    pub fn revision(&self) -> (revision: DocumentRevision)
        ensures
            revision == self@.metadata.revision,
    {
        self.metadata.revision
    }

    pub fn layers(&self) -> (layers: &Vec<DocumentLayerMetadata>)
        ensures
            layer_models(layers@) == self@.metadata.layers,
    {
        &self.metadata.layers
    }

    pub fn active_layer_id(&self) -> (layer: LayerId)
        ensures
            layer == self@.metadata.active,
    {
        self.metadata.active_layer
    }

    /// The pixels of a layer.
    pub fn layer_raster(&self, layer: LayerId) -> (raster: Option<&RasterLayer>)
        requires
            self.wf(),
        ensures
            match raster {
                Some(raster) => raster.wf() && exists|i: int|
                    0 <= i < self@.metadata.layers.len() && (
                    #[trigger] self@.metadata.layers[i]).id == layer && raster@
                        == self@.rasters[i],
                None => !has_layer(self@.metadata.layers, layer),
            },
    {
        let mut i: usize = 0;
        while i < self.metadata.layers.len()
            invariant
                self.wf(),
                i <= self.metadata.layers@.len(),
                forall|k: int|
                    0 <= k < i ==> (#[trigger] self@.metadata.layers[k]).id != layer,
            decreases self.metadata.layers@.len() - i,
        {
            assert(self@.metadata.layers[i as int] == self.metadata.layers@[i as int]@);
            if self.metadata.layers[i].id.0 == layer.0 {
                assert(self@.rasters[i as int] == self.rasters@[i as int]@);
                return Some(&self.rasters[i]);
            }
            i += 1;
        }
        None
    }
}

} // verus!
