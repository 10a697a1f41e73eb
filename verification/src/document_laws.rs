//! What each edit does to the layers of a document.

use crate::document::{DocumentRevision, LayerId};
use crate::document_metadata::{
    create_edit, delete_edit, duplicate_edit, edit_applied, has_layer, layer_position,
    layers_distinct, move_edit, name_edit, opacity_edit, visibility_edit,
    DocumentMetadataEditDirection, EditModel, LayerModel, MetadataModel,
};
use crate::gpu_stroke_laws::alike;
use vstd::prelude::*;

verus! {

/// The metadata once the edit is made.
pub open spec fn made(
    metadata: MetadataModel,
    edit: EditModel,
    revision: DocumentRevision,
) -> MetadataModel {
    edit_applied(metadata, edit, DocumentMetadataEditDirection::Forward, revision)->Ok_0
}

pub open spec fn can_be_made(
    metadata: MetadataModel,
    edit: EditModel,
    revision: DocumentRevision,
) -> bool {
    edit_applied(metadata, edit, DocumentMetadataEditDirection::Forward, revision) is Ok
}

/// What belongs to no layer stays, and the revision is the one given.
pub open spec fn rest_stays(
    before: MetadataModel,
    after: MetadataModel,
    revision: DocumentRevision,
) -> bool {
    &&& after.geometry == before.geometry
    &&& after.active == before.active
    &&& after.next_layer == before.next_layer
    &&& after.revision == revision
    &&& after.layers.len() == before.layers.len()
}

proof fn lemma_position(layers: Seq<LayerModel>, i: int)
    requires
        layers_distinct(layers),
        0 <= i < layers.len(),
    ensures
        layer_position(layers, layers[i].id) == Some(i),
{
    let id = layers[i].id;
    assert(has_layer(layers, id));
    let p = layer_position(layers, id)->0;
    assert(layers[p].id == id);
    if p < i {
        assert(layers[p].id != layers[i].id);
    }
    if i < p {
        assert(layers[i].id != layers[p].id);
    }
}

/// Showing or hiding a layer changes whether it is shown, and nothing else. Where that makes no
/// difference there is no edit.
pub proof fn law_visibility_is_all_that_changes(
    metadata: MetadataModel,
    i: int,
    visible: bool,
    revision: DocumentRevision,
    j: int,
)
    requires
        metadata.valid(),
        0 <= i < metadata.layers.len(),
        0 <= j < metadata.layers.len(),
    ensures
        match visibility_edit(metadata, metadata.layers[i].id, visible) {
            Ok(Some(edit)) => {
                let after = made(metadata, edit, revision);
                &&& metadata.layers[i].visible != visible
                &&& can_be_made(metadata, edit, revision)
                &&& rest_stays(metadata, after, revision)
                &&& after.layers[i].visible == visible
                &&& after.layers[i].id == metadata.layers[i].id
                &&& after.layers[i].name == metadata.layers[i].name
                &&& after.layers[i].opacity == metadata.layers[i].opacity
                &&& j != i ==> after.layers[j] == metadata.layers[j]
            },
            Ok(None) => metadata.layers[i].visible == visible,
            Err(_) => false,
        },
{
    lemma_position(metadata.layers, i);
}

/// Setting the opacity of a layer changes its opacity, and nothing else. Only numbers between zero and
/// one are taken, and where the number stays the same there is no edit.
pub proof fn law_opacity_is_all_that_changes(
    metadata: MetadataModel,
    i: int,
    opacity: u32,
    revision: DocumentRevision,
    j: int,
)
    requires
        metadata.valid(),
        0 <= i < metadata.layers.len(),
        0 <= j < metadata.layers.len(),
    ensures
        match opacity_edit(metadata, metadata.layers[i].id, opacity) {
            Ok(Some(edit)) => {
                let after = made(metadata, edit, revision);
                &&& opacity <= 0x3f80_0000 || opacity == 0x8000_0000
                &&& !alike(metadata.layers[i].opacity, opacity)
                &&& can_be_made(metadata, edit, revision)
                &&& rest_stays(metadata, after, revision)
                &&& after.layers[i].opacity == opacity
                &&& after.layers[i].id == metadata.layers[i].id
                &&& after.layers[i].name == metadata.layers[i].name
                &&& after.layers[i].visible == metadata.layers[i].visible
                &&& j != i ==> after.layers[j] == metadata.layers[j]
            },
            Ok(None) => alike(metadata.layers[i].opacity, opacity),
            Err(_) => !(opacity <= 0x3f80_0000 || opacity == 0x8000_0000),
        },
{
    lemma_position(metadata.layers, i);
}

/// Naming a layer changes its name, and nothing else.
pub proof fn law_name_is_all_that_changes(
    metadata: MetadataModel,
    i: int,
    name: Seq<char>,
    revision: DocumentRevision,
    j: int,
)
    requires
        metadata.valid(),
        0 <= i < metadata.layers.len(),
        0 <= j < metadata.layers.len(),
    ensures
        match name_edit(metadata, metadata.layers[i].id, name) {
            Ok(Some(edit)) => {
                let after = made(metadata, edit, revision);
                &&& metadata.layers[i].name != name
                &&& can_be_made(metadata, edit, revision)
                &&& rest_stays(metadata, after, revision)
                &&& after.layers[i].name == name
                &&& after.layers[i].id == metadata.layers[i].id
                &&& after.layers[i].opacity == metadata.layers[i].opacity
                &&& after.layers[i].visible == metadata.layers[i].visible
                &&& j != i ==> after.layers[j] == metadata.layers[j]
            },
            Ok(None) => metadata.layers[i].name == name,
            Err(_) => false,
        },
{
    lemma_position(metadata.layers, i);
}

/// Moving a layer puts it where it was asked to go and keeps the others in their order.
pub proof fn law_moved_layer_reaches_its_place(
    metadata: MetadataModel,
    i: int,
    destination: usize,
    revision: DocumentRevision,
)
    requires
        metadata.valid(),
        0 <= i < metadata.layers.len(),
    ensures
        match move_edit(metadata, metadata.layers[i].id, destination) {
            Ok(Some(edit)) => {
                let after = made(metadata, edit, revision);
                &&& destination < metadata.layers.len()
                &&& destination != i
                &&& can_be_made(metadata, edit, revision)
                &&& rest_stays(metadata, after, revision)
                &&& after.layers[destination as int] == metadata.layers[i]
                &&& after.layers.remove(destination as int) == metadata.layers.remove(i)
            },
            Ok(None) => destination == i,
            Err(_) => destination >= metadata.layers.len(),
        },
{
    lemma_position(metadata.layers, i);
    match move_edit(metadata, metadata.layers[i].id, destination) {
        Ok(Some(edit)) => {
            let after = made(metadata, edit, revision);
            assert(after.layers.remove(destination as int) =~= metadata.layers.remove(i));
        },
        _ => {},
    }
}

/// A new layer lies on top, is visible and opaque, has a number that no layer had, and is chosen.
pub proof fn law_new_layer_lies_on_top(
    metadata: MetadataModel,
    name: Seq<char>,
    revision: DocumentRevision,
)
    requires
        metadata.valid(),
    ensures
        match create_edit(metadata, name) {
            Ok(edit) => {
                let after = made(metadata, edit, revision);
                &&& can_be_made(metadata, edit, revision)
                &&& after.layers.drop_last() == metadata.layers
                &&& after.layers.len() == metadata.layers.len() + 1
                &&& after.layers.last().name == name
                &&& after.layers.last().visible
                &&& after.layers.last().opacity == 0x3f80_0000
                &&& after.active == after.layers.last().id
                &&& after.layers.last().id.0 == metadata.next_layer
                &&& after.next_layer == metadata.next_layer + 1
                &&& after.geometry == metadata.geometry
                &&& after.revision == revision
            },
            Err(_) => metadata.next_layer == u64::MAX,
        },
{
    match create_edit(metadata, name) {
        Ok(edit) => {
            let n = metadata.layers.len() as int;
            let added = edit->added;
            let layers = metadata.layers.insert(n, added);
            assert(layers[n].id == added.id);
            assert(has_layer(layers, added.id));
            assert(!has_layer(metadata.layers, added.id));
            assert(layers.drop_last() =~= metadata.layers);
        },
        Err(_) => {},
    }
}

/// A copy of a layer lies right above it, looks like it under a number that no layer had, and is
/// chosen; the others keep their order.
pub proof fn law_copied_layer_lies_above_its_source(
    metadata: MetadataModel,
    i: int,
    revision: DocumentRevision,
)
    requires
        metadata.valid(),
        0 <= i < metadata.layers.len(),
    ensures
        match duplicate_edit(metadata, metadata.layers[i].id) {
            Ok(edit) => {
                let after = made(metadata, edit, revision);
                &&& can_be_made(metadata, edit, revision)
                &&& after.layers.len() == metadata.layers.len() + 1
                &&& after.layers.remove(i + 1) == metadata.layers
                &&& after.layers[i + 1].name == metadata.layers[i].name
                &&& after.layers[i + 1].visible == metadata.layers[i].visible
                &&& after.layers[i + 1].opacity == metadata.layers[i].opacity
                &&& after.layers[i + 1].id.0 == metadata.next_layer
                &&& after.active == after.layers[i + 1].id
                &&& after.next_layer == metadata.next_layer + 1
            },
            Err(_) => metadata.next_layer == u64::MAX,
        },
{
    lemma_position(metadata.layers, i);
    match duplicate_edit(metadata, metadata.layers[i].id) {
        Ok(edit) => {
            let added = edit->added;
            let layers = metadata.layers.insert(i + 1, added);
            assert(layers[i + 1].id == added.id);
            assert(has_layer(layers, added.id));
            assert(!has_layer(metadata.layers, added.id));
            assert(crate::stroke::is_fraction(metadata.layers[i].opacity));
            assert(layers.remove(i + 1) =~= metadata.layers);
        },
        Err(_) => {},
    }
}

/// Deleting a layer takes it out and keeps the others in their order. Where it was chosen the layer
/// below it is chosen, or the one above where it was the lowest; another choice stays. The last layer
/// cannot be deleted.
pub proof fn law_deleted_layer_is_gone(metadata: MetadataModel, i: int, revision: DocumentRevision)
    requires
        metadata.valid(),
        0 <= i < metadata.layers.len(),
    ensures
        match delete_edit(metadata, metadata.layers[i].id) {
            Ok(edit) => {
                let after = made(metadata, edit, revision);
                &&& can_be_made(metadata, edit, revision)
                &&& after.layers == metadata.layers.remove(i)
                &&& after.active == (if metadata.active != metadata.layers[i].id {
                    metadata.active
                } else if i > 0 {
                    metadata.layers[i - 1].id
                } else {
                    metadata.layers[1].id
                })
                &&& after.next_layer == metadata.next_layer
                &&& after.revision == revision
            },
            Err(_) => metadata.layers.len() == 1,
        },
{
    lemma_position(metadata.layers, i);
    match delete_edit(metadata, metadata.layers[i].id) {
        Ok(edit) => {
            let layers = metadata.layers.remove(i);
            if metadata.active == metadata.layers[i].id {
                if i > 0 {
                    assert(layers[i - 1] == metadata.layers[i - 1]);
                } else {
                    assert(layers[0] == metadata.layers[1]);
                }
            } else {
                let a = choose|a: int|
                    0 <= a < metadata.layers.len() && (#[trigger] metadata.layers[a]).id
                        == metadata.active;
                if a < i {
                    assert(layers[a] == metadata.layers[a]);
                } else {
                    assert(layers[a - 1] == metadata.layers[a]);
                }
            }
        },
        Err(_) => {},
    }
}

/// A layer that the document does not have cannot be edited.
pub proof fn law_unknown_layers_are_not_edited(
    metadata: MetadataModel,
    layer: LayerId,
    name: Seq<char>,
    destination: usize,
)
    requires
        forall|i: int|
            0 <= i < metadata.layers.len() ==> (#[trigger] metadata.layers[i]).id != layer,
    ensures
        visibility_edit(metadata, layer, true) is Err,
        visibility_edit(metadata, layer, false) is Err,
        name_edit(metadata, layer, name) is Err,
        move_edit(metadata, layer, destination) is Err,
        duplicate_edit(metadata, layer) is Err,
        delete_edit(metadata, layer) is Err,
{
}

} // verus!
