//! What a document says about its layers, apart from their pixels.

use crate::document::{DocumentRevision, LayerId};
use crate::raster_layer::RasterGeometry;
use crate::stroke::{equal_numbers, in_unit_range, is_fraction, numbers_equal, ONE_BITS};
use vstd::prelude::*;

verus! {

#[derive(Clone, Copy, Debug, PartialEq, Eq, Structural)]
pub enum DocumentMetadataError {
    EmptyCanvas,
    InvalidTileSize,
    TileStorageOverflow,
    LayerNotFound(LayerId),
    InvalidOpacity,
    InvalidDestination { destination: usize, layers: usize },
    CannotDeleteLastLayer,
    LayerIdExhausted,
    /// The document is not in the state that the edit starts from.
    EditConflict(LayerId),
}

/// One layer: its name and how it is shown. The opacity is held by its bits.
#[derive(Clone, Debug, PartialEq, Eq)]
pub struct DocumentLayerMetadata {
    pub(crate) id: LayerId,
    pub(crate) name: String,
    pub(crate) visible: bool,
    pub(crate) opacity: u32,
}

pub struct LayerModel {
    pub id: LayerId,
    pub name: Seq<char>,
    pub visible: bool,
    pub opacity: u32,
}

impl View for DocumentLayerMetadata {
    type V = LayerModel;

    open(crate) spec fn view(&self) -> LayerModel {
        LayerModel {
            id: self.id,
            name: self.name@,
            visible: self.visible,
            opacity: self.opacity,
        }
    }
}

impl DocumentLayerMetadata {
    pub fn id(&self) -> (id: LayerId)
        ensures
            id == self@.id,
    {
        self.id
    }

    pub fn name(&self) -> (name: &str)
        ensures
            name@ == self@.name,
    {
        self.name.as_str()
    }

    pub fn visible(&self) -> (visible: bool)
        ensures
            visible == self@.visible,
    {
        self.visible
    }

    pub fn opacity(&self) -> (opacity: u32)
        ensures
            opacity == self@.opacity,
    {
        self.opacity
    }

    pub fn duplicate(&self) -> (copy: DocumentLayerMetadata)
        ensures
            copy@ == self@,
    {
        DocumentLayerMetadata {
            id: self.id,
            name: self.name.clone(),
            visible: self.visible,
            opacity: self.opacity,
        }
    }

    fn same(&self, other: &DocumentLayerMetadata) -> (equal: bool)
        ensures
            equal == (self@ == other@),
    {
        self.id.0 == other.id.0 && self.visible == other.visible && self.opacity == other.opacity
            && self.name == other.name
    }
}

pub open(crate) spec fn layer_models(layers: Seq<DocumentLayerMetadata>) -> Seq<LayerModel> {
    Seq::new(layers.len(), |i: int| layers[i]@)
}

/// Which way an edit goes.
#[derive(Clone, Copy, Debug, PartialEq, Eq, Structural)]
pub enum DocumentMetadataEditDirection {
    Forward,
    Reverse,
}

/// One edit, with what it takes to make it and to take it back.
#[derive(Clone, Debug, PartialEq, Eq)]
#[allow(inconsistent_fields)]
pub enum DocumentMetadataEdit {
    Visibility { layer: LayerId, before: bool, after: bool },
    Opacity { layer: LayerId, before: u32, after: u32 },
    Name { layer: LayerId, before: String, after: String },
    Move { layer: LayerId, from: usize, to: usize },
    Insert { index: usize, added: DocumentLayerMetadata, active_before: LayerId },
    Remove {
        index: usize,
        removed: DocumentLayerMetadata,
        active_before: LayerId,
        active_after: LayerId,
    },
}

#[allow(inconsistent_fields)]
pub enum EditModel {
    Visibility { layer: LayerId, before: bool, after: bool },
    Opacity { layer: LayerId, before: u32, after: u32 },
    Name { layer: LayerId, before: Seq<char>, after: Seq<char> },
    Move { layer: LayerId, from: int, to: int },
    Insert { index: int, added: LayerModel, active_before: LayerId },
    Remove { index: int, removed: LayerModel, active_before: LayerId, active_after: LayerId },
}

impl EditModel {
    pub open spec fn layer(self) -> LayerId {
        match self {
            EditModel::Visibility { layer, .. } => layer,
            EditModel::Opacity { layer, .. } => layer,
            EditModel::Name { layer, .. } => layer,
            EditModel::Move { layer, .. } => layer,
            EditModel::Insert { added, .. } => added.id,
            EditModel::Remove { removed, .. } => removed.id,
        }
    }
}

impl View for DocumentMetadataEdit {
    type V = EditModel;

    open(crate) spec fn view(&self) -> EditModel {
        match *self {
            DocumentMetadataEdit::Visibility { layer, before, after } => EditModel::Visibility {
                layer,
                before,
                after,
            },
            DocumentMetadataEdit::Opacity { layer, before, after } => EditModel::Opacity {
                layer,
                before,
                after,
            },
            DocumentMetadataEdit::Name { layer, before, after } => EditModel::Name {
                layer,
                before: before@,
                after: after@,
            },
            DocumentMetadataEdit::Move { layer, from, to } => EditModel::Move {
                layer,
                from: from as int,
                to: to as int,
            },
            DocumentMetadataEdit::Insert { index, added, active_before } => EditModel::Insert {
                index: index as int,
                added: added@,
                active_before,
            },
            DocumentMetadataEdit::Remove { index, removed, active_before, active_after } => EditModel::Remove {
                index: index as int,
                removed: removed@,
                active_before,
                active_after,
            },
        }
    }
}

impl DocumentMetadataEdit {
    /// The layer that the edit is about.
    pub fn layer(&self) -> (layer: LayerId)
        ensures
            layer == self@.layer(),
    {
        match self {
            DocumentMetadataEdit::Visibility { layer, .. } => *layer,
            DocumentMetadataEdit::Opacity { layer, .. } => *layer,
            DocumentMetadataEdit::Name { layer, .. } => *layer,
            DocumentMetadataEdit::Move { layer, .. } => *layer,
            DocumentMetadataEdit::Insert { added, .. } => added.id,
            DocumentMetadataEdit::Remove { removed, .. } => removed.id,
        }
    }

    pub fn duplicate(&self) -> (copy: DocumentMetadataEdit)
        ensures
            copy@ == self@,
    {
        match self {
            DocumentMetadataEdit::Visibility { layer, before, after } => {
                DocumentMetadataEdit::Visibility { layer: *layer, before: *before, after: *after }
            },
            DocumentMetadataEdit::Opacity { layer, before, after } => {
                DocumentMetadataEdit::Opacity { layer: *layer, before: *before, after: *after }
            },
            DocumentMetadataEdit::Name { layer, before, after } => DocumentMetadataEdit::Name {
                layer: *layer,
                before: before.clone(),
                after: after.clone(),
            },
            DocumentMetadataEdit::Move { layer, from, to } => DocumentMetadataEdit::Move {
                layer: *layer,
                from: *from,
                to: *to,
            },
            DocumentMetadataEdit::Insert { index, added, active_before } => {
                DocumentMetadataEdit::Insert {
                    index: *index,
                    added: added.duplicate(),
                    active_before: *active_before,
                }
            },
            DocumentMetadataEdit::Remove { index, removed, active_before, active_after } => {
                DocumentMetadataEdit::Remove {
                    index: *index,
                    removed: removed.duplicate(),
                    active_before: *active_before,
                    active_after: *active_after,
                }
            },
        }
    }
}

/// The layers of a document, bottom first, and which of them is edited.
#[derive(Clone, Debug, PartialEq, Eq)]
pub struct DocumentMetadata {
    pub(crate) width: u32,
    pub(crate) height: u32,
    pub(crate) tile_size: u32,
    pub(crate) revision: DocumentRevision,
    pub(crate) layers: Vec<DocumentLayerMetadata>,
    pub(crate) active_layer: LayerId,
    pub(crate) next_layer_id: u64,
}

pub struct MetadataModel {
    pub geometry: RasterGeometry,
    pub revision: DocumentRevision,
    pub layers: Seq<LayerModel>,
    pub active: LayerId,
    pub next_layer: u64,
}

impl View for DocumentMetadata {
    type V = MetadataModel;

    open(crate) spec fn view(&self) -> MetadataModel {
        MetadataModel {
            geometry: RasterGeometry {
                width: self.width as int,
                height: self.height as int,
                tile_size: self.tile_size as int,
            },
            revision: self.revision,
            layers: layer_models(self.layers@),
            active: self.active_layer,
            next_layer: self.next_layer_id,
        }
    }
}

pub open spec fn layers_distinct(layers: Seq<LayerModel>) -> bool {
    forall|i: int, j: int|
        #![trigger layers[i], layers[j]]
        0 <= i < j < layers.len() ==> layers[i].id != layers[j].id
}

pub open spec fn has_layer(layers: Seq<LayerModel>, id: LayerId) -> bool {
    exists|i: int| 0 <= i < layers.len() && (#[trigger] layers[i]).id == id
}

/// Where a layer stands.
pub open spec fn layer_position(layers: Seq<LayerModel>, id: LayerId) -> Option<int> {
    if has_layer(layers, id) {
        Some(choose|i: int| 0 <= i < layers.len() && (#[trigger] layers[i]).id == id)
    } else {
        None
    }
}

impl MetadataModel {
    /// There is a layer, no layer twice, the edited one is among them, and new
    /// layers get names that no layer has had.
    pub open spec fn valid(self) -> bool {
        &&& self.geometry.valid()
        &&& self.layers.len() > 0
        &&& layers_distinct(self.layers)
        &&& has_layer(self.layers, self.active)
        &&& forall|i: int|
            0 <= i < self.layers.len() ==> (#[trigger] self.layers[i]).id.0 < self.next_layer
                && is_fraction(self.layers[i].opacity)
    }
}

/// A layer with every attribute but one kept.
pub open spec fn with_layer_at(
    metadata: MetadataModel,
    index: int,
    layer: LayerModel,
    revision: DocumentRevision,
) -> MetadataModel {
    MetadataModel { layers: metadata.layers.update(index, layer), revision, ..metadata }
}

/// Adds a layer and edits it, or why that cannot be.
pub open spec fn layer_inserted(
    metadata: MetadataModel,
    index: int,
    layer: LayerModel,
    active: LayerId,
    revision: DocumentRevision,
) -> Result<MetadataModel, DocumentMetadataError> {
    if index > metadata.layers.len() || has_layer(metadata.layers, layer.id) || !is_fraction(
        layer.opacity,
    ) {
        Err(DocumentMetadataError::EditConflict(layer.id))
    } else if layer.id.0 == u64::MAX {
        Err(DocumentMetadataError::LayerIdExhausted)
    } else if !has_layer(metadata.layers.insert(index, layer), active) {
        Err(DocumentMetadataError::EditConflict(layer.id))
    } else {
        Ok(
            MetadataModel {
                geometry: metadata.geometry,
                revision,
                layers: metadata.layers.insert(index, layer),
                active,
                next_layer: if layer.id.0 < metadata.next_layer {
                    metadata.next_layer
                } else {
                    (layer.id.0 + 1) as u64
                },
            },
        )
    }
}

/// Takes a layer out, or why that cannot be. If it was the edited one, `active`
/// becomes that.
pub open spec fn layer_removed(
    metadata: MetadataModel,
    index: int,
    layer: LayerModel,
    active: LayerId,
    revision: DocumentRevision,
) -> Result<MetadataModel, DocumentMetadataError> {
    if index >= metadata.layers.len() || metadata.layers[index] != layer {
        Err(DocumentMetadataError::EditConflict(layer.id))
    } else if metadata.layers.len() == 1 {
        Err(DocumentMetadataError::CannotDeleteLastLayer)
    } else {
        let layers = metadata.layers.remove(index);
        let chosen = if metadata.active == layer.id {
            active
        } else {
            metadata.active
        };
        if !has_layer(layers, chosen) {
            Err(DocumentMetadataError::EditConflict(layer.id))
        } else {
            Ok(MetadataModel { layers, active: chosen, revision, ..metadata })
        }
    }
}

/// The document after an edit, or why the edit cannot be made.
pub open spec fn edit_applied(
    metadata: MetadataModel,
    edit: EditModel,
    direction: DocumentMetadataEditDirection,
    revision: DocumentRevision,
) -> Result<MetadataModel, DocumentMetadataError> {
    let forward = direction == DocumentMetadataEditDirection::Forward;
    match edit {
        EditModel::Visibility { layer, before, after } => match layer_position(
            metadata.layers,
            layer,
        ) {
            Some(p) => {
                let was = if forward {
                    before
                } else {
                    after
                };
                let becomes = if forward {
                    after
                } else {
                    before
                };
                if metadata.layers[p].visible != was {
                    Err(DocumentMetadataError::EditConflict(layer))
                } else {
                    Ok(
                        with_layer_at(
                            metadata,
                            p,
                            LayerModel { visible: becomes, ..metadata.layers[p] },
                            revision,
                        ),
                    )
                }
            },
            None => Err(DocumentMetadataError::LayerNotFound(layer)),
        },
        EditModel::Opacity { layer, before, after } => match layer_position(
            metadata.layers,
            layer,
        ) {
            Some(p) => {
                let was = if forward {
                    before
                } else {
                    after
                };
                let becomes = if forward {
                    after
                } else {
                    before
                };
                if !is_fraction(becomes) {
                    Err(DocumentMetadataError::InvalidOpacity)
                } else if metadata.layers[p].opacity != was {
                    Err(DocumentMetadataError::EditConflict(layer))
                } else {
                    Ok(
                        with_layer_at(
                            metadata,
                            p,
                            LayerModel { opacity: becomes, ..metadata.layers[p] },
                            revision,
                        ),
                    )
                }
            },
            None => Err(DocumentMetadataError::LayerNotFound(layer)),
        },
        EditModel::Name { layer, before, after } => match layer_position(metadata.layers, layer) {
            Some(p) => {
                let was = if forward {
                    before
                } else {
                    after
                };
                let becomes = if forward {
                    after
                } else {
                    before
                };
                if metadata.layers[p].name != was {
                    Err(DocumentMetadataError::EditConflict(layer))
                } else {
                    Ok(
                        with_layer_at(
                            metadata,
                            p,
                            LayerModel { name: becomes, ..metadata.layers[p] },
                            revision,
                        ),
                    )
                }
            },
            None => Err(DocumentMetadataError::LayerNotFound(layer)),
        },
        EditModel::Move { layer, from, to } => {
            let start = if forward {
                from
            } else {
                to
            };
            let end = if forward {
                to
            } else {
                from
            };
            let n = metadata.layers.len();
            if start >= n || end >= n || metadata.layers[start].id != layer {
                Err(DocumentMetadataError::EditConflict(layer))
            } else {
                Ok(
                    MetadataModel {
                        layers: metadata.layers.remove(start).insert(end, metadata.layers[start]),
                        revision,
                        ..metadata
                    },
                )
            }
        },
        EditModel::Insert { index, added, active_before } => if forward {
            layer_inserted(metadata, index, added, added.id, revision)
        } else {
            layer_removed(metadata, index, added, active_before, revision)
        },
        EditModel::Remove { index, removed, active_before, active_after } => if forward {
            layer_removed(metadata, index, removed, active_after, revision)
        } else {
            layer_inserted(metadata, index, removed, active_before, revision)
        },
    }
}

proof fn lemma_position(layers: Seq<LayerModel>, id: LayerId, p: int)
    requires
        layers_distinct(layers),
        0 <= p < layers.len(),
        layers[p].id == id,
    ensures
        layer_position(layers, id) == Some(p),
{
    assert(has_layer(layers, id));
    let q = choose|i: int| 0 <= i < layers.len() && (#[trigger] layers[i]).id == id;
    if p < q {
        assert(layers[p].id != layers[q].id);
    } else if q < p {
        assert(layers[q].id != layers[p].id);
    }
}

/// Changing a layer without renaming it keeps the order valid.
proof fn lemma_layer_changed(metadata: MetadataModel, p: int, layer: LayerModel, revision: DocumentRevision)
    requires
        metadata.valid(),
        0 <= p < metadata.layers.len(),
        layer.id == metadata.layers[p].id,
        is_fraction(layer.opacity),
    ensures
        with_layer_at(metadata, p, layer, revision).valid(),
{
    let after = with_layer_at(metadata, p, layer, revision);
    assert forall|i: int, j: int|
        #![trigger after.layers[i], after.layers[j]]
        0 <= i < j < after.layers.len() implies after.layers[i].id != after.layers[j].id by {
        assert(metadata.layers[i].id != metadata.layers[j].id);
    }
    let a = choose|i: int|
        0 <= i < metadata.layers.len() && (#[trigger] metadata.layers[i]).id == metadata.active;
    assert(after.layers[a].id == metadata.active);
    assert forall|i: int| 0 <= i < after.layers.len() implies (#[trigger] after.layers[i]).id.0
        < after.next_layer && is_fraction(after.layers[i].opacity) by {
        assert(metadata.layers[i].id.0 < metadata.next_layer);
    }
}

proof fn lemma_layer_inserted(
    metadata: MetadataModel,
    index: int,
    layer: LayerModel,
    active: LayerId,
    revision: DocumentRevision,
)
    requires
        metadata.valid(),
        0 <= index,
        layer_inserted(metadata, index, layer, active, revision) is Ok,
    ensures
        (layer_inserted(metadata, index, layer, active, revision)->Ok_0).valid(),
{
    let after = layer_inserted(metadata, index, layer, active, revision)->Ok_0;
    assert forall|i: int, j: int|
        #![trigger after.layers[i], after.layers[j]]
        0 <= i < j < after.layers.len() implies after.layers[i].id != after.layers[j].id by {
        let a = if i < index {
            i
        } else {
            i - 1
        };
        let b = if j < index {
            j
        } else {
            j - 1
        };
        if i == index {
            assert(after.layers[j] == metadata.layers[b]);
        } else if j == index {
            assert(after.layers[i] == metadata.layers[a]);
        } else {
            assert(after.layers[i] == metadata.layers[a]);
            assert(after.layers[j] == metadata.layers[b]);
            assert(metadata.layers[a].id != metadata.layers[b].id);
        }
    }
    assert forall|i: int| 0 <= i < after.layers.len() implies (#[trigger] after.layers[i]).id.0
        < after.next_layer && is_fraction(after.layers[i].opacity) by {
        if i < index {
            assert(after.layers[i] == metadata.layers[i]);
        } else if i > index {
            assert(after.layers[i] == metadata.layers[i - 1]);
        }
    }
}

proof fn lemma_layer_removed(
    metadata: MetadataModel,
    index: int,
    layer: LayerModel,
    active: LayerId,
    revision: DocumentRevision,
)
    requires
        metadata.valid(),
        0 <= index,
        layer_removed(metadata, index, layer, active, revision) is Ok,
    ensures
        (layer_removed(metadata, index, layer, active, revision)->Ok_0).valid(),
{
    let after = layer_removed(metadata, index, layer, active, revision)->Ok_0;
    assert forall|i: int, j: int|
        #![trigger after.layers[i], after.layers[j]]
        0 <= i < j < after.layers.len() implies after.layers[i].id != after.layers[j].id by {
        let a = if i < index {
            i
        } else {
            i + 1
        };
        let b = if j < index {
            j
        } else {
            j + 1
        };
        assert(after.layers[i] == metadata.layers[a]);
        assert(after.layers[j] == metadata.layers[b]);
        assert(metadata.layers[a].id != metadata.layers[b].id);
    }
    assert forall|i: int| 0 <= i < after.layers.len() implies (#[trigger] after.layers[i]).id.0
        < after.next_layer && is_fraction(after.layers[i].opacity) by {
        if i < index {
            assert(after.layers[i] == metadata.layers[i]);
        } else {
            assert(after.layers[i] == metadata.layers[i + 1]);
        }
    }
}

/// Where the layer at `i` was before one layer moved.
spec fn moved_from(start: int, end: int, i: int) -> int {
    if i == end {
        start
    } else {
        let shifted = if i < end {
            i
        } else {
            i - 1
        };
        if shifted < start {
            shifted
        } else {
            shifted + 1
        }
    }
}

proof fn lemma_layer_moved(metadata: MetadataModel, start: int, end: int)
    requires
        metadata.valid(),
        0 <= start < metadata.layers.len(),
        0 <= end < metadata.layers.len(),
    ensures
        (MetadataModel {
            layers: metadata.layers.remove(start).insert(end, metadata.layers[start]),
            ..metadata
        }).valid(),
{
    let before = metadata.layers;
    let after = before.remove(start).insert(end, before[start]);
    assert forall|i: int| 0 <= i < after.len() implies 0 <= moved_from(start, end, i)
        < before.len() && #[trigger] after[i] == before[moved_from(start, end, i)] by {
    }
    assert forall|i: int, j: int|
        #![trigger after[i], after[j]]
        0 <= i < j < after.len() implies after[i].id != after[j].id by {
        let a = moved_from(start, end, i);
        let b = moved_from(start, end, j);
        assert(a != b);
        assert(after[i] == before[a] && after[j] == before[b]);
        if a < b {
            assert(before[a].id != before[b].id);
        } else {
            assert(before[b].id != before[a].id);
        }
    }
    let p = choose|i: int| 0 <= i < before.len() && (#[trigger] before[i]).id == metadata.active;
    let reduced = if p < start {
        p
    } else {
        p - 1
    };
    let q = if p == start {
        end
    } else if reduced < end {
        reduced
    } else {
        reduced + 1
    };
    assert(moved_from(start, end, q) == p);
    assert(after[q].id == metadata.active);
    assert forall|i: int| 0 <= i < after.len() implies (#[trigger] after[i]).id.0
        < metadata.next_layer && is_fraction(after[i].opacity) by {
        assert(after[i] == before[moved_from(start, end, i)]);
    }
}

fn find_layer(layers: &Vec<DocumentLayerMetadata>, id: LayerId) -> (position: Option<usize>)
    ensures
        match position {
            Some(p) => p < layers@.len() && layers@[p as int]@.id == id && has_layer(
                layer_models(layers@),
                id,
            ),
            None => !has_layer(layer_models(layers@), id),
        },
{
    let ghost models = layer_models(layers@);
    let mut i: usize = 0;
    while i < layers.len()
        invariant
            models == layer_models(layers@),
            i <= layers@.len(),
            forall|k: int| 0 <= k < i ==> (#[trigger] models[k]).id != id,
        decreases layers@.len() - i,
    {
        if layers[i].id.0 == id.0 {
            assert(models[i as int].id == id);
            return Some(i);
        }
        assert(models[i as int].id != id);
        i += 1;
    }
    None
}

fn copy_layers(layers: &Vec<DocumentLayerMetadata>) -> (copy: Vec<DocumentLayerMetadata>)
    ensures
        layer_models(copy@) == layer_models(layers@),
{
    let mut copy: Vec<DocumentLayerMetadata> = Vec::new();
    let mut i: usize = 0;
    while i < layers.len()
        invariant
            i <= layers@.len(),
            copy@.len() == i,
            forall|k: int| 0 <= k < i ==> (#[trigger] copy@[k])@ == layers@[k]@,
        decreases layers@.len() - i,
    {
        copy.push(layers[i].duplicate());
        i += 1;
    }
    assert(layer_models(copy@) =~= layer_models(layers@));
    copy
}

/// A document with one empty layer.
pub open spec fn blank_metadata(
    geometry: RasterGeometry,
    revision: DocumentRevision,
) -> MetadataModel {
    MetadataModel {
        geometry,
        revision,
        layers: seq![LayerModel { id: LayerId(1), name: "Layer 1"@, visible: true, opacity: ONE_BITS }],
        active: LayerId(1),
        next_layer: 2,
    }
}

impl DocumentMetadata {
    pub open(crate) spec fn wf(self) -> bool {
        self@.valid()
    }

    /// A document with one layer that shows nothing yet.
    pub fn new_blank(width: u32, height: u32, tile_size: u32, revision: DocumentRevision) -> (
    metadata: Result<DocumentMetadata, DocumentMetadataError>)
        ensures
            ({
                let geometry = RasterGeometry {
                    width: width as int,
                    height: height as int,
                    tile_size: tile_size as int,
                };
                match metadata {
                    Ok(metadata) => geometry.valid() && metadata.wf() && metadata@
                        == blank_metadata(geometry, revision),
                    Err(error) => !geometry.valid() && error == if width == 0 || height == 0 {
                        DocumentMetadataError::EmptyCanvas
                    } else if tile_size == 0 {
                        DocumentMetadataError::InvalidTileSize
                    } else {
                        DocumentMetadataError::TileStorageOverflow
                    },
                }
            }),
    {
        if width == 0 || height == 0 {
            return Err(DocumentMetadataError::EmptyCanvas);
        }
        if tile_size == 0 {
            return Err(DocumentMetadataError::InvalidTileSize);
        }
        match tile_size.checked_mul(tile_size) {
            Some(count) => {
                if count as u64 > usize::MAX as u64 {
                    return Err(DocumentMetadataError::TileStorageOverflow);
                }
            },
            None => {
                return Err(DocumentMetadataError::TileStorageOverflow);
            },
        }
        let mut layers: Vec<DocumentLayerMetadata> = Vec::new();
        layers.push(
            DocumentLayerMetadata {
                id: LayerId(1),
                name: String::from_str("Layer 1"),
                visible: true,
                opacity: ONE_BITS,
            },
        );
        let metadata = DocumentMetadata {
            width,
            height,
            tile_size,
            revision,
            layers,
            active_layer: LayerId(1),
            next_layer_id: 2,
        };
        proof {
            assert(metadata@.layers =~= blank_metadata(metadata@.geometry, revision).layers);
            assert(metadata@.layers[0].id == metadata@.active);
        }
        Ok(metadata)
    }

    pub fn width(&self) -> (width: u32)
        ensures
            width == self@.geometry.width,
    {
        self.width
    }

    pub fn height(&self) -> (height: u32)
        ensures
            height == self@.geometry.height,
    {
        self.height
    }

    pub fn dimensions(&self) -> (dimensions: [u32; 2])
        ensures
            dimensions[0] == self@.geometry.width,
            dimensions[1] == self@.geometry.height,
    {
        [self.width, self.height]
    }

    pub fn tile_size(&self) -> (tile_size: u32)
        ensures
            tile_size == self@.geometry.tile_size,
    {
        self.tile_size
    }

    pub fn revision(&self) -> (revision: DocumentRevision)
        ensures
            revision == self@.revision,
    {
        self.revision
    }

    pub fn layers(&self) -> (layers: &Vec<DocumentLayerMetadata>)
        ensures
            layer_models(layers@) == self@.layers,
    {
        &self.layers
    }

    pub fn active_layer(&self) -> (layer: LayerId)
        ensures
            layer == self@.active,
    {
        self.active_layer
    }

    /// Whether the document has the layer.
    pub fn contains_layer(&self, layer: LayerId) -> (present: bool)
        ensures
            present == has_layer(self@.layers, layer),
    {
        find_layer(&self.layers, layer).is_some()
    }

    pub fn duplicate(&self) -> (copy: DocumentMetadata)
        ensures
            copy@ == self@,
    {
        DocumentMetadata {
            width: self.width,
            height: self.height,
            tile_size: self.tile_size,
            revision: self.revision,
            layers: copy_layers(&self.layers),
            active_layer: self.active_layer,
            next_layer_id: self.next_layer_id,
        }
    }

    pub fn set_revision(&mut self, revision: DocumentRevision)
        requires
            old(self).wf(),
        ensures
            final(self).wf(),
            final(self)@ == (MetadataModel { revision, ..old(self)@ }),
    {
        self.revision = revision;
    }

    /// Chooses the layer to edit. That makes no new revision.
    pub fn set_active_layer(&mut self, layer: LayerId) -> (chosen: Result<
        (),
        DocumentMetadataError,
    >)
        requires
            old(self).wf(),
        ensures
            final(self).wf(),
            match chosen {
                Ok(_) => has_layer(old(self)@.layers, layer) && final(self)@ == (MetadataModel {
                    active: layer,
                    ..old(self)@
                }),
                Err(error) => !has_layer(old(self)@.layers, layer) && error
                    == DocumentMetadataError::LayerNotFound(layer) && *final(self) == *old(self),
            },
    {
        if find_layer(&self.layers, layer).is_none() {
            return Err(DocumentMetadataError::LayerNotFound(layer));
        }
        self.active_layer = layer;
        Ok(())
    }

    fn set_layer_at(&mut self, index: usize, layer: DocumentLayerMetadata, revision: DocumentRevision)
        requires
            old(self).wf(),
            index < old(self)@.layers.len(),
            layer@.id == old(self)@.layers[index as int].id,
            is_fraction(layer@.opacity),
        ensures
            final(self).wf(),
            final(self)@ == with_layer_at(old(self)@, index as int, layer@, revision),
    {
        let ghost before = self@;
        proof {
            lemma_layer_changed(before, index as int, layer@, revision);
        }
        let ghost model = layer@;
        self.layers.set(index, layer);
        self.revision = revision;
        assert(self@.layers =~= before.layers.update(index as int, model));
    }

    fn insert_layer(
        &mut self,
        index: usize,
        layer: &DocumentLayerMetadata,
        active: LayerId,
        revision: DocumentRevision,
    ) -> (inserted: Result<(), DocumentMetadataError>)
        requires
            old(self).wf(),
        ensures
            final(self).wf(),
            ({
                let expected = layer_inserted(
                    old(self)@,
                    index as int,
                    layer@,
                    active,
                    revision,
                );
                match inserted {
                    Ok(_) => expected == Ok::<MetadataModel, DocumentMetadataError>(final(self)@),
                    Err(error) => expected == Err::<MetadataModel, DocumentMetadataError>(error)
                        && final(self)@ == old(self)@,
                }
            }),
    {
        let ghost before = self@;
        if index > self.layers.len() || find_layer(&self.layers, layer.id).is_some() || !in_unit_range(
            layer.opacity,
        ) {
            return Err(DocumentMetadataError::EditConflict(layer.id));
        }
        if layer.id.0 == u64::MAX {
            return Err(DocumentMetadataError::LayerIdExhausted);
        }
        let mut layers = copy_layers(&self.layers);
        layers.insert(index, layer.duplicate());
        assert(layer_models(layers@) =~= before.layers.insert(index as int, layer@));
        if find_layer(&layers, active).is_none() {
            return Err(DocumentMetadataError::EditConflict(layer.id));
        }
        proof {
            lemma_layer_inserted(before, index as int, layer@, active, revision);
        }
        self.layers = layers;
        self.active_layer = active;
        self.revision = revision;
        if layer.id.0 >= self.next_layer_id {
            self.next_layer_id = layer.id.0 + 1;
        }
        Ok(())
    }

    fn remove_layer(
        &mut self,
        index: usize,
        layer: &DocumentLayerMetadata,
        active: LayerId,
        revision: DocumentRevision,
    ) -> (removed: Result<(), DocumentMetadataError>)
        requires
            old(self).wf(),
        ensures
            final(self).wf(),
            ({
                let expected = layer_removed(
                    old(self)@,
                    index as int,
                    layer@,
                    active,
                    revision,
                );
                match removed {
                    Ok(_) => expected == Ok::<MetadataModel, DocumentMetadataError>(final(self)@),
                    Err(error) => expected == Err::<MetadataModel, DocumentMetadataError>(error)
                        && final(self)@ == old(self)@,
                }
            }),
    {
        let ghost before = self@;
        if index >= self.layers.len() || !self.layers[index].same(layer) {
            return Err(DocumentMetadataError::EditConflict(layer.id));
        }
        if self.layers.len() == 1 {
            return Err(DocumentMetadataError::CannotDeleteLastLayer);
        }
        let mut layers = copy_layers(&self.layers);
        layers.remove(index);
        assert(layer_models(layers@) =~= before.layers.remove(index as int));
        let chosen = if self.active_layer.0 == layer.id.0 {
            active
        } else {
            self.active_layer
        };
        if find_layer(&layers, chosen).is_none() {
            return Err(DocumentMetadataError::EditConflict(layer.id));
        }
        proof {
            lemma_layer_removed(before, index as int, layer@, active, revision);
        }
        self.layers = layers;
        self.active_layer = chosen;
        self.revision = revision;
        Ok(())
    }

    /// Makes an edit, or takes it back, as one new revision.
    pub fn apply_edit(
        &mut self,
        edit: &DocumentMetadataEdit,
        direction: DocumentMetadataEditDirection,
        revision: DocumentRevision,
    ) -> (applied: Result<(), DocumentMetadataError>)
        requires
            old(self).wf(),
        ensures
            final(self).wf(),
            match applied {
                Ok(_) => edit_applied(old(self)@, edit@, direction, revision) == Ok::<
                    MetadataModel,
                    DocumentMetadataError,
                >(final(self)@),
                Err(error) => edit_applied(old(self)@, edit@, direction, revision) == Err::<
                    MetadataModel,
                    DocumentMetadataError,
                >(error) && final(self)@ == old(self)@,
            },
    {
        let ghost before = self@;
        let forward = direction == DocumentMetadataEditDirection::Forward;
        match edit {
            DocumentMetadataEdit::Visibility { layer, before: from, after: to } => {
                let p = match find_layer(&self.layers, *layer) {
                    Some(p) => p,
                    None => {
                        return Err(DocumentMetadataError::LayerNotFound(*layer));
                    },
                };
                proof {
                    assert(before.layers[p as int].id == *layer);
                    lemma_position(before.layers, *layer, p as int);
                }
                let was = if forward {
                    *from
                } else {
                    *to
                };
                let becomes = if forward {
                    *to
                } else {
                    *from
                };
                if self.layers[p].visible != was {
                    return Err(DocumentMetadataError::EditConflict(*layer));
                }
                let mut changed = self.layers[p].duplicate();
                changed.visible = becomes;
                self.set_layer_at(p, changed, revision);
                Ok(())
            },
            DocumentMetadataEdit::Opacity { layer, before: from, after: to } => {
                let p = match find_layer(&self.layers, *layer) {
                    Some(p) => p,
                    None => {
                        return Err(DocumentMetadataError::LayerNotFound(*layer));
                    },
                };
                proof {
                    assert(before.layers[p as int].id == *layer);
                    lemma_position(before.layers, *layer, p as int);
                }
                let was: u32 = if forward {
                    *from
                } else {
                    *to
                };
                let becomes: u32 = if forward {
                    *to
                } else {
                    *from
                };
                if !in_unit_range(becomes) {
                    return Err(DocumentMetadataError::InvalidOpacity);
                }
                if self.layers[p].opacity != was {
                    return Err(DocumentMetadataError::EditConflict(*layer));
                }
                let mut changed = self.layers[p].duplicate();
                changed.opacity = becomes;
                self.set_layer_at(p, changed, revision);
                Ok(())
            },
            DocumentMetadataEdit::Name { layer, before: from, after: to } => {
                let p = match find_layer(&self.layers, *layer) {
                    Some(p) => p,
                    None => {
                        return Err(DocumentMetadataError::LayerNotFound(*layer));
                    },
                };
                proof {
                    assert(before.layers[p as int].id == *layer);
                    lemma_position(before.layers, *layer, p as int);
                }
                let was = if forward {
                    from
                } else {
                    to
                };
                let becomes = if forward {
                    to
                } else {
                    from
                };
                if self.layers[p].name != *was {
                    return Err(DocumentMetadataError::EditConflict(*layer));
                }
                let mut changed = self.layers[p].duplicate();
                changed.name = becomes.clone();
                self.set_layer_at(p, changed, revision);
                Ok(())
            },
            DocumentMetadataEdit::Move { layer, from, to } => {
                let start: usize = if forward {
                    *from
                } else {
                    *to
                };
                let end: usize = if forward {
                    *to
                } else {
                    *from
                };
                let n: usize = self.layers.len();
                if start >= n || end >= n || self.layers[start].id.0 != layer.0 {
                    return Err(DocumentMetadataError::EditConflict(*layer));
                }
                proof {
                    lemma_layer_moved(before, start as int, end as int);
                }
                let ghost all = self.layers@;
                let moved = self.layers.remove(start);
                let ghost reduced = self.layers@;
                self.layers.insert(end, moved);
                self.revision = revision;
                proof {
                    assert(layer_models(reduced) =~= before.layers.remove(start as int));
                    assert(self@.layers =~= before.layers.remove(start as int).insert(
                        end as int,
                        before.layers[start as int],
                    ));
                }
                Ok(())
            },
            DocumentMetadataEdit::Insert { index, added, active_before } => if forward {
                self.insert_layer(*index, added, added.id, revision)
            } else {
                self.remove_layer(*index, added, *active_before, revision)
            },
            DocumentMetadataEdit::Remove { index, removed, active_before, active_after } => if forward {
                self.remove_layer(*index, removed, *active_after, revision)
            } else {
                self.insert_layer(*index, removed, *active_before, revision)
            },
        }
    }
}

/// The edit that shows or hides a layer. There is none where nothing would change.
pub open spec fn visibility_edit(metadata: MetadataModel, layer: LayerId, visible: bool) -> Result<
    Option<EditModel>,
    DocumentMetadataError,
> {
    match layer_position(metadata.layers, layer) {
        None => Err(DocumentMetadataError::LayerNotFound(layer)),
        Some(p) => if metadata.layers[p].visible == visible {
            Ok(None)
        } else {
            Ok(
                Some(
                    EditModel::Visibility {
                        layer,
                        before: metadata.layers[p].visible,
                        after: visible,
                    },
                ),
            )
        },
    }
}

/// The edit that sets how much a layer covers. There is none where nothing would change.
pub open spec fn opacity_edit(metadata: MetadataModel, layer: LayerId, opacity: u32) -> Result<
    Option<EditModel>,
    DocumentMetadataError,
> {
    if !is_fraction(opacity) {
        Err(DocumentMetadataError::InvalidOpacity)
    } else {
        match layer_position(metadata.layers, layer) {
            None => Err(DocumentMetadataError::LayerNotFound(layer)),
            Some(p) => if numbers_equal(metadata.layers[p].opacity, opacity) {
                Ok(None)
            } else {
                Ok(
                    Some(
                        EditModel::Opacity {
                            layer,
                            before: metadata.layers[p].opacity,
                            after: opacity,
                        },
                    ),
                )
            },
        }
    }
}

/// The edit that renames a layer. There is none where nothing would change.
pub open spec fn name_edit(metadata: MetadataModel, layer: LayerId, name: Seq<char>) -> Result<
    Option<EditModel>,
    DocumentMetadataError,
> {
    match layer_position(metadata.layers, layer) {
        None => Err(DocumentMetadataError::LayerNotFound(layer)),
        Some(p) => if metadata.layers[p].name == name {
            Ok(None)
        } else {
            Ok(Some(EditModel::Name { layer, before: metadata.layers[p].name, after: name }))
        },
    }
}

/// The edit that moves a layer. There is none where nothing would change.
pub open spec fn move_edit(metadata: MetadataModel, layer: LayerId, destination: usize) -> Result<
    Option<EditModel>,
    DocumentMetadataError,
> {
    match layer_position(metadata.layers, layer) {
        None => Err(DocumentMetadataError::LayerNotFound(layer)),
        Some(p) => if destination >= metadata.layers.len() {
            Err(
                DocumentMetadataError::InvalidDestination {
                    destination,
                    layers: metadata.layers.len() as usize,
                },
            )
        } else if destination == p {
            Ok(None)
        } else {
            Ok(Some(EditModel::Move { layer, from: p, to: destination as int }))
        },
    }
}

/// The edit that adds an empty layer on top.
pub open spec fn create_edit(metadata: MetadataModel, name: Seq<char>) -> Result<
    EditModel,
    DocumentMetadataError,
> {
    if metadata.next_layer == u64::MAX {
        Err(DocumentMetadataError::LayerIdExhausted)
    } else {
        Ok(
            EditModel::Insert {
                index: metadata.layers.len() as int,
                added: LayerModel {
                    id: LayerId(metadata.next_layer),
                    name,
                    visible: true,
                    opacity: ONE_BITS,
                },
                active_before: metadata.active,
            },
        )
    }
}

/// The edit that adds a copy of a layer above it.
pub open spec fn duplicate_edit(metadata: MetadataModel, source: LayerId) -> Result<
    EditModel,
    DocumentMetadataError,
> {
    match layer_position(metadata.layers, source) {
        None => Err(DocumentMetadataError::LayerNotFound(source)),
        Some(p) => if metadata.next_layer == u64::MAX {
            Err(DocumentMetadataError::LayerIdExhausted)
        } else {
            Ok(
                EditModel::Insert {
                    index: p + 1,
                    added: LayerModel {
                        id: LayerId(metadata.next_layer),
                        ..metadata.layers[p]
                    },
                    active_before: metadata.active,
                },
            )
        },
    }
}

/// The edit that takes a layer away. The layer below it, or else above it, is
/// edited next, if it was being edited.
pub open spec fn delete_edit(metadata: MetadataModel, layer: LayerId) -> Result<
    EditModel,
    DocumentMetadataError,
> {
    match layer_position(metadata.layers, layer) {
        None => Err(DocumentMetadataError::LayerNotFound(layer)),
        Some(p) => if metadata.layers.len() == 1 {
            Err(DocumentMetadataError::CannotDeleteLastLayer)
        } else {
            Ok(
                EditModel::Remove {
                    index: p,
                    removed: metadata.layers[p],
                    active_before: metadata.active,
                    active_after: if metadata.active != layer {
                        metadata.active
                    } else if p > 0 {
                        metadata.layers[p - 1].id
                    } else {
                        metadata.layers[p + 1].id
                    },
                },
            )
        },
    }
}

pub open spec fn optional_edit(edit: Option<DocumentMetadataEdit>) -> Option<EditModel> {
    match edit {
        Some(edit) => Some(edit@),
        None => None,
    }
}

impl DocumentMetadata {
    pub fn prepare_layer_visibility(&self, layer: LayerId, visible: bool) -> (edit: Result<
        Option<DocumentMetadataEdit>,
        DocumentMetadataError,
    >)
        requires
            self.wf(),
        ensures
            match edit {
                Ok(edit) => visibility_edit(self@, layer, visible) == Ok::<
                    Option<EditModel>,
                    DocumentMetadataError,
                >(optional_edit(edit)),
                Err(error) => visibility_edit(self@, layer, visible) == Err::<
                    Option<EditModel>,
                    DocumentMetadataError,
                >(error),
            },
    {
        match find_layer(&self.layers, layer) {
            Some(p) => {
                proof {
                    assert(self@.layers[p as int].id == layer);
                    lemma_position(self@.layers, layer, p as int);
                }
                let before = self.layers[p].visible;
                if before == visible {
                    Ok(None)
                } else {
                    Ok(Some(DocumentMetadataEdit::Visibility { layer, before, after: visible }))
                }
            },
            None => Err(DocumentMetadataError::LayerNotFound(layer)),
        }
    }

    pub fn prepare_layer_opacity(&self, layer: LayerId, opacity: u32) -> (edit: Result<
        Option<DocumentMetadataEdit>,
        DocumentMetadataError,
    >)
        requires
            self.wf(),
        ensures
            match edit {
                Ok(edit) => opacity_edit(self@, layer, opacity) == Ok::<
                    Option<EditModel>,
                    DocumentMetadataError,
                >(optional_edit(edit)),
                Err(error) => opacity_edit(self@, layer, opacity) == Err::<
                    Option<EditModel>,
                    DocumentMetadataError,
                >(error),
            },
    {
        if !in_unit_range(opacity) {
            return Err(DocumentMetadataError::InvalidOpacity);
        }
        match find_layer(&self.layers, layer) {
            Some(p) => {
                proof {
                    assert(self@.layers[p as int].id == layer);
                    lemma_position(self@.layers, layer, p as int);
                }
                let before: u32 = self.layers[p].opacity;
                if equal_numbers(before, opacity) {
                    Ok(None)
                } else {
                    Ok(Some(DocumentMetadataEdit::Opacity { layer, before, after: opacity }))
                }
            },
            None => Err(DocumentMetadataError::LayerNotFound(layer)),
        }
    }

    pub fn prepare_layer_name(&self, layer: LayerId, name: String) -> (edit: Result<
        Option<DocumentMetadataEdit>,
        DocumentMetadataError,
    >)
        requires
            self.wf(),
        ensures
            match edit {
                Ok(edit) => name_edit(self@, layer, name@) == Ok::<
                    Option<EditModel>,
                    DocumentMetadataError,
                >(optional_edit(edit)),
                Err(error) => name_edit(self@, layer, name@) == Err::<
                    Option<EditModel>,
                    DocumentMetadataError,
                >(error),
            },
    {
        match find_layer(&self.layers, layer) {
            Some(p) => {
                proof {
                    assert(self@.layers[p as int].id == layer);
                    lemma_position(self@.layers, layer, p as int);
                }
                if self.layers[p].name == name {
                    Ok(None)
                } else {
                    let before = self.layers[p].name.clone();
                    Ok(Some(DocumentMetadataEdit::Name { layer, before, after: name }))
                }
            },
            None => Err(DocumentMetadataError::LayerNotFound(layer)),
        }
    }

    pub fn prepare_layer_move(&self, layer: LayerId, destination: usize) -> (edit: Result<
        Option<DocumentMetadataEdit>,
        DocumentMetadataError,
    >)
        requires
            self.wf(),
        ensures
            match edit {
                Ok(edit) => move_edit(self@, layer, destination) == Ok::<
                    Option<EditModel>,
                    DocumentMetadataError,
                >(optional_edit(edit)),
                Err(error) => move_edit(self@, layer, destination) == Err::<
                    Option<EditModel>,
                    DocumentMetadataError,
                >(error),
            },
    {
        match find_layer(&self.layers, layer) {
            Some(p) => {
                proof {
                    assert(self@.layers[p as int].id == layer);
                    lemma_position(self@.layers, layer, p as int);
                }
                if destination >= self.layers.len() {
                    Err(
                        DocumentMetadataError::InvalidDestination {
                            destination,
                            layers: self.layers.len(),
                        },
                    )
                } else if destination == p {
                    Ok(None)
                } else {
                    Ok(Some(DocumentMetadataEdit::Move { layer, from: p, to: destination }))
                }
            },
            None => Err(DocumentMetadataError::LayerNotFound(layer)),
        }
    }

    pub fn prepare_create_layer(&self, name: String) -> (edit: Result<
        DocumentMetadataEdit,
        DocumentMetadataError,
    >)
        requires
            self.wf(),
        ensures
            match edit {
                Ok(edit) => create_edit(self@, name@) == Ok::<EditModel, DocumentMetadataError>(
                    edit@,
                ),
                Err(error) => create_edit(self@, name@) == Err::<EditModel, DocumentMetadataError>(
                    error,
                ),
            },
    {
        if self.next_layer_id == u64::MAX {
            return Err(DocumentMetadataError::LayerIdExhausted);
        }
        Ok(
            DocumentMetadataEdit::Insert {
                index: self.layers.len(),
                added: DocumentLayerMetadata {
                    id: LayerId(self.next_layer_id),
                    name,
                    visible: true,
                    opacity: ONE_BITS,
                },
                active_before: self.active_layer,
            },
        )
    }

    pub fn prepare_duplicate_layer(&self, source: LayerId) -> (edit: Result<
        DocumentMetadataEdit,
        DocumentMetadataError,
    >)
        requires
            self.wf(),
        ensures
            match edit {
                Ok(edit) => duplicate_edit(self@, source) == Ok::<
                    EditModel,
                    DocumentMetadataError,
                >(edit@),
                Err(error) => duplicate_edit(self@, source) == Err::<
                    EditModel,
                    DocumentMetadataError,
                >(error),
            },
    {
        match find_layer(&self.layers, source) {
            Some(p) => {
                proof {
                    assert(self@.layers[p as int].id == source);
                    lemma_position(self@.layers, source, p as int);
                }
                if self.next_layer_id == u64::MAX {
                    return Err(DocumentMetadataError::LayerIdExhausted);
                }
                let count: usize = self.layers.len();
                assert(p < count);
                let mut added = self.layers[p].duplicate();
                added.id = LayerId(self.next_layer_id);
                Ok(
                    DocumentMetadataEdit::Insert {
                        index: p + 1,
                        added,
                        active_before: self.active_layer,
                    },
                )
            },
            None => Err(DocumentMetadataError::LayerNotFound(source)),
        }
    }

    pub fn prepare_delete_layer(&self, layer: LayerId) -> (edit: Result<
        DocumentMetadataEdit,
        DocumentMetadataError,
    >)
        requires
            self.wf(),
        ensures
            match edit {
                Ok(edit) => delete_edit(self@, layer) == Ok::<EditModel, DocumentMetadataError>(
                    edit@,
                ),
                Err(error) => delete_edit(self@, layer) == Err::<EditModel, DocumentMetadataError>(
                    error,
                ),
            },
    {
        match find_layer(&self.layers, layer) {
            Some(p) => {
                proof {
                    assert(self@.layers[p as int].id == layer);
                    lemma_position(self@.layers, layer, p as int);
                }
                if self.layers.len() == 1 {
                    return Err(DocumentMetadataError::CannotDeleteLastLayer);
                }
                let active_after = if self.active_layer.0 != layer.0 {
                    self.active_layer
                } else if p > 0 {
                    self.layers[p - 1].id
                } else {
                    self.layers[p + 1].id
                };
                Ok(
                    DocumentMetadataEdit::Remove {
                        index: p,
                        removed: self.layers[p].duplicate(),
                        active_before: self.active_layer,
                        active_after,
                    },
                )
            },
            None => Err(DocumentMetadataError::LayerNotFound(layer)),
        }
    }
}

/// An edit that some document prepares.
pub open spec fn edit_prepared(metadata: MetadataModel, edit: EditModel) -> bool {
    match edit {
        EditModel::Visibility { layer, after, .. } => visibility_edit(metadata, layer, after) == Ok::<
            Option<EditModel>,
            DocumentMetadataError,
        >(Some(edit)),
        EditModel::Opacity { layer, after, .. } => opacity_edit(metadata, layer, after) == Ok::<
            Option<EditModel>,
            DocumentMetadataError,
        >(Some(edit)),
        EditModel::Name { layer, after, .. } => name_edit(metadata, layer, after) == Ok::<
            Option<EditModel>,
            DocumentMetadataError,
        >(Some(edit)),
        EditModel::Move { layer, to, .. } => 0 <= to <= usize::MAX && move_edit(
            metadata,
            layer,
            to as usize,
        ) == Ok::<Option<EditModel>, DocumentMetadataError>(Some(edit)),
        EditModel::Insert { added, .. } => create_edit(metadata, added.name) == Ok::<
            EditModel,
            DocumentMetadataError,
        >(edit) || exists|source: LayerId| #[trigger] duplicate_edit(metadata, source) == Ok::<
            EditModel,
            DocumentMetadataError,
        >(edit),
        EditModel::Remove { removed, .. } => delete_edit(metadata, removed.id) == Ok::<
            EditModel,
            DocumentMetadataError,
        >(edit),
    }
}

/// The edit can be made, and taking it back restores the layers and the choice of
/// the edited one.
pub open spec fn edit_reverts(
    metadata: MetadataModel,
    edit: EditModel,
    made: DocumentRevision,
    undone: DocumentRevision,
) -> bool {
    let forward = DocumentMetadataEditDirection::Forward;
    let reverse = DocumentMetadataEditDirection::Reverse;
    &&& edit_applied(metadata, edit, forward, made) matches Ok(after)
    &&& after.valid()
    &&& edit_applied(after, edit, reverse, undone) matches Ok(restored)
    &&& restored.layers == metadata.layers
    &&& restored.active == metadata.active
    &&& restored.revision == undone
    &&& restored.next_layer >= metadata.next_layer
}

proof fn lemma_attribute_reverts(
    metadata: MetadataModel,
    edit: EditModel,
    made: DocumentRevision,
    undone: DocumentRevision,
)
    requires
        metadata.valid(),
        edit_prepared(metadata, edit),
        edit is Visibility || edit is Opacity || edit is Name,
    ensures
        edit_reverts(metadata, edit, made, undone),
{
    let forward = DocumentMetadataEditDirection::Forward;
    let reverse = DocumentMetadataEditDirection::Reverse;
    let before = metadata.layers;
    let layer = edit.layer();
    let p = layer_position(before, layer)->0;
    assert(is_fraction(before[p].opacity));
    let after = edit_applied(metadata, edit, forward, made)->Ok_0;
    lemma_layer_changed(metadata, p, after.layers[p], made);
    lemma_position(after.layers, layer, p);
    assert(edit_applied(after, edit, reverse, undone)->Ok_0.layers =~= before);
}

proof fn lemma_move_reverts(
    metadata: MetadataModel,
    edit: EditModel,
    made: DocumentRevision,
    undone: DocumentRevision,
)
    requires
        metadata.valid(),
        edit_prepared(metadata, edit),
        edit is Move,
    ensures
        edit_reverts(metadata, edit, made, undone),
{
    let reverse = DocumentMetadataEditDirection::Reverse;
    if let EditModel::Move { layer, from, to } = edit {
        let before = metadata.layers;
        let after = edit_applied(metadata, edit, DocumentMetadataEditDirection::Forward, made)->Ok_0;
        lemma_layer_moved(metadata, from, to);
        assert(after.layers[to] == before[from]);
        assert(after.layers.remove(to) =~= before.remove(from));
        assert(edit_applied(after, edit, reverse, undone)->Ok_0.layers =~= before);
    }
}

proof fn lemma_insert_reverts(
    metadata: MetadataModel,
    edit: EditModel,
    made: DocumentRevision,
    undone: DocumentRevision,
)
    requires
        metadata.valid(),
        edit_prepared(metadata, edit),
        edit is Insert,
    ensures
        edit_reverts(metadata, edit, made, undone),
{
    if let EditModel::Insert { index, added, active_before } = edit {
        let before = metadata.layers;
        if create_edit(metadata, added.name) != Ok::<EditModel, DocumentMetadataError>(edit) {
            let source = choose|source: LayerId| #[trigger]
                duplicate_edit(metadata, source) == Ok::<EditModel, DocumentMetadataError>(edit);
            let p = layer_position(before, source)->0;
            assert(is_fraction(before[p].opacity));
            assert(index == p + 1);
        }
        assert(0 <= index <= before.len());
        assert(!has_layer(before, added.id));
        assert(before.insert(index, added)[index].id == added.id);
        lemma_layer_inserted(metadata, index, added, added.id, made);
        let after = layer_inserted(metadata, index, added, added.id, made)->Ok_0;
        assert(after.layers.remove(index) =~= before);
    }
}

proof fn lemma_remove_reverts(
    metadata: MetadataModel,
    edit: EditModel,
    made: DocumentRevision,
    undone: DocumentRevision,
)
    requires
        metadata.valid(),
        edit_prepared(metadata, edit),
        edit is Remove,
    ensures
        edit_reverts(metadata, edit, made, undone),
{
    if let EditModel::Remove { index, removed, active_before, active_after } = edit {
        let before = metadata.layers;
        let rest = before.remove(index);
        let chosen = if metadata.active == removed.id {
            active_after
        } else {
            metadata.active
        };
        assert(before[index] == removed);
        assert(has_layer(rest, chosen)) by {
            if metadata.active != removed.id {
                let a = choose|i: int|
                    0 <= i < before.len() && (#[trigger] before[i]).id == metadata.active;
                if a < index {
                    assert(rest[a].id == chosen);
                } else {
                    assert(rest[a - 1].id == chosen);
                }
            } else if index > 0 {
                assert(rest[index - 1].id == chosen);
            } else {
                assert(rest[0] == before[1]);
                assert(rest[0].id == chosen);
            }
        }
        lemma_layer_removed(metadata, index, removed, active_after, made);
        let after = layer_removed(metadata, index, removed, active_after, made)->Ok_0;
        assert(after.layers == rest);
        assert(!has_layer(rest, removed.id)) by {
            if has_layer(rest, removed.id) {
                let i = choose|i: int|
                    0 <= i < rest.len() && (#[trigger] rest[i]).id == removed.id;
                let j = if i < index {
                    i
                } else {
                    i + 1
                };
                assert(rest[i] == before[j]);
                if j < index {
                    assert(before[j].id != before[index].id);
                } else {
                    assert(before[index].id != before[j].id);
                }
            }
        }
        assert(rest.insert(index, removed) =~= before);
        assert(removed.id.0 < metadata.next_layer);
    }
}

/// An edit that was prepared can be made, and taking it back then restores the
/// layers, their order and the choice of the edited one.
pub proof fn law_taking_an_edit_back_restores_the_layers(
    metadata: MetadataModel,
    edit: EditModel,
    made: DocumentRevision,
    undone: DocumentRevision,
)
    requires
        metadata.valid(),
        edit_prepared(metadata, edit),
    ensures
        edit_reverts(metadata, edit, made, undone),
{
    if edit is Move {
        lemma_move_reverts(metadata, edit, made, undone);
    } else if edit is Insert {
        lemma_insert_reverts(metadata, edit, made, undone);
    } else if edit is Remove {
        lemma_remove_reverts(metadata, edit, made, undone);
    } else {
        lemma_attribute_reverts(metadata, edit, made, undone);
    }
}

/// The name of a new layer has not been the name of any layer before, whatever was undone.
pub proof fn law_layer_names_are_not_reused(
    metadata: MetadataModel,
    edit: EditModel,
    direction: DocumentMetadataEditDirection,
    revision: DocumentRevision,
)
    requires
        metadata.valid(),
        edit_applied(metadata, edit, direction, revision) is Ok,
        edit is Move || edit is Insert || edit is Remove ==> edit_prepared_index(edit),
    ensures
        edit_applied(metadata, edit, direction, revision)->Ok_0.next_layer >= metadata.next_layer,
        forall|i: int|
            0 <= i < edit_applied(metadata, edit, direction, revision)->Ok_0.layers.len() ==> (
            #[trigger] edit_applied(metadata, edit, direction, revision)->Ok_0.layers[i]).id.0
                < edit_applied(metadata, edit, direction, revision)->Ok_0.next_layer,
{
    let after = edit_applied(metadata, edit, direction, revision)->Ok_0;
    match edit {
        EditModel::Visibility { layer, .. } => {
            let p = layer_position(metadata.layers, layer)->0;
            lemma_layer_changed(metadata, p, after.layers[p], revision);
        },
        EditModel::Opacity { layer, .. } => {
            let p = layer_position(metadata.layers, layer)->0;
            lemma_layer_changed(metadata, p, after.layers[p], revision);
        },
        EditModel::Name { layer, .. } => {
            let p = layer_position(metadata.layers, layer)->0;
            assert(is_fraction(metadata.layers[p].opacity));
            lemma_layer_changed(metadata, p, after.layers[p], revision);
        },
        EditModel::Move { from, to, .. } => {
            if direction == DocumentMetadataEditDirection::Forward {
                lemma_layer_moved(metadata, from, to);
            } else {
                lemma_layer_moved(metadata, to, from);
            }
        },
        EditModel::Insert { index, added, active_before } => {
            if direction == DocumentMetadataEditDirection::Forward {
                lemma_layer_inserted(metadata, index, added, added.id, revision);
            } else {
                lemma_layer_removed(metadata, index, added, active_before, revision);
            }
        },
        EditModel::Remove { index, removed, active_before, active_after } => {
            if direction == DocumentMetadataEditDirection::Forward {
                lemma_layer_removed(metadata, index, removed, active_after, revision);
            } else {
                lemma_layer_inserted(metadata, index, removed, active_before, revision);
            }
        },
    }
}

/// The places that an edit names are places.
pub open spec fn edit_prepared_index(edit: EditModel) -> bool {
    match edit {
        EditModel::Move { from, to, .. } => 0 <= from && 0 <= to,
        EditModel::Insert { index, .. } => 0 <= index,
        EditModel::Remove { index, .. } => 0 <= index,
        _ => true,
    }
}

} // verus!
