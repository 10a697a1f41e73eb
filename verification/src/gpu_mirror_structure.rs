//! Changes of whole layers in the mirror.

use crate::document::{Document, DocumentModel, DocumentRevision, LayerId};
use crate::gpu_atlas::LayerTileKey;
use crate::gpu_cpu_mirror::{
    layer_tiles, lemma_seen_all, lemma_seen_step, mirror_tiles_valid, seen_tiles,
    GpuCpuMirror, MirrorModel,
};
use crate::gpu_layer_recovery::{tiles_in_order, GpuExactLayerRecoveryCommand, LayerCommandModel};
use crate::keyed_map::{
    entries_map, has_key, keys_unique, lemma_entry_in_map, KeyedMap,
};
use crate::raster::{LinearRgba, TileCoord};
use crate::raster_layer::{
    pixel_map, tile_entries, tiles_valid, RasterGeometry, RasterTile, TilePixels,
};
use crate::shared::share;
use vstd::prelude::*;

verus! {

/// What a revision does to the layers of the mirror, beside the pixels that are read back.
#[derive(Debug)]
pub enum GpuMirrorStructure {
    Unchanged,
    CloneLayer { source: LayerId, destination: LayerId },
    InstallLayer(GpuExactLayerRecoveryCommand),
}

pub enum StructureModel {
    Unchanged,
    CloneLayer { source: LayerId, destination: LayerId },
    InstallLayer(LayerCommandModel),
}

impl View for GpuMirrorStructure {
    type V = StructureModel;

    open(crate) spec fn view(&self) -> StructureModel {
        match self {
            GpuMirrorStructure::Unchanged => StructureModel::Unchanged,
            GpuMirrorStructure::CloneLayer { source, destination } => StructureModel::CloneLayer {
                source: *source,
                destination: *destination,
            },
            GpuMirrorStructure::InstallLayer(command) => StructureModel::InstallLayer(command@),
        }
    }
}

impl GpuMirrorStructure {
    pub open(crate) spec fn wf(self) -> bool {
        match self {
            GpuMirrorStructure::InstallLayer(command) => command.wf(),
            _ => true,
        }
    }

    /// A second one that shares the pixels.
    pub fn duplicate(&self) -> (copy: GpuMirrorStructure)
        requires
            self.wf(),
        ensures
            copy.wf(),
            copy@ == self@,
    {
        match self {
            GpuMirrorStructure::Unchanged => GpuMirrorStructure::Unchanged,
            GpuMirrorStructure::CloneLayer { source, destination } => {
                GpuMirrorStructure::CloneLayer { source: *source, destination: *destination }
            },
            GpuMirrorStructure::InstallLayer(command) => {
                GpuMirrorStructure::InstallLayer(command.duplicate())
            },
        }
    }
}

/// The change can be made on a canvas of this shape.
pub open spec fn structure_fits(geometry: RasterGeometry, change: StructureModel) -> bool {
    match change {
        StructureModel::InstallLayer(command) => command.geometry == geometry,
        _ => true,
    }
}

/// The tiles with `content` as the whole of one layer.
pub open spec fn with_layer(
    tiles: Map<LayerTileKey, Seq<LinearRgba>>,
    layer: LayerId,
    content: Map<TileCoord, Seq<LinearRgba>>,
) -> Map<LayerTileKey, Seq<LinearRgba>> {
    Map::new(
        |key: LayerTileKey|
            if key.layer == layer {
                content.contains_key(key.tile)
            } else {
                tiles.contains_key(key)
            },
        |key: LayerTileKey|
            if key.layer == layer {
                content[key.tile]
            } else {
                tiles[key]
            },
    )
}

/// The tiles after the change.
pub open spec fn restructured(
    tiles: Map<LayerTileKey, Seq<LinearRgba>>,
    change: StructureModel,
) -> Map<LayerTileKey, Seq<LinearRgba>> {
    match change {
        StructureModel::Unchanged => tiles,
        StructureModel::CloneLayer { source, destination } => with_layer(
            tiles,
            destination,
            layer_tiles(tiles, source),
        ),
        StructureModel::InstallLayer(command) => with_layer(
            tiles,
            command.layer,
            entries_map(command.tiles),
        ),
    }
}

proof fn lemma_layer_grows(
    tiles: Map<LayerTileKey, Seq<LinearRgba>>,
    layer: LayerId,
    content: Map<TileCoord, Seq<LinearRgba>>,
    tile: TileCoord,
    pixels: Seq<LinearRgba>,
)
    ensures
        with_layer(tiles, layer, content).insert(LayerTileKey { layer, tile }, pixels)
            == with_layer(tiles, layer, content.insert(tile, pixels)),
{
    assert(with_layer(tiles, layer, content).insert(LayerTileKey { layer, tile }, pixels)
        =~= with_layer(tiles, layer, content.insert(tile, pixels)));
}

pub(crate) proof fn lemma_with_layer_valid(
    geometry: RasterGeometry,
    tiles: Map<LayerTileKey, Seq<LinearRgba>>,
    layer: LayerId,
    content: Map<TileCoord, Seq<LinearRgba>>,
)
    requires
        mirror_tiles_valid(geometry, tiles),
        tiles_valid(geometry, content),
    ensures
        mirror_tiles_valid(geometry, with_layer(tiles, layer, content)),
{
    let after = with_layer(tiles, layer, content);
    assert forall|key: LayerTileKey| #[trigger] after.contains_key(key) implies geometry.has_tile(
        key.tile,
    ) && after[key].len() == geometry.tile_len() by {
        if key.layer == layer {
            assert(content.contains_key(key.tile));
        } else {
            assert(tiles.contains_key(key));
        }
    }
}

/// The map that the first `n` entries make, without those of one layer.
spec fn kept(order: Seq<(LayerTileKey, TilePixels)>, layer: LayerId, n: int) -> Seq<
    (LayerTileKey, TilePixels),
>
    decreases n,
{
    if n <= 0 {
        Seq::empty()
    } else if order[n - 1].0.layer == layer {
        kept(order, layer, n - 1)
    } else {
        kept(order, layer, n - 1).push(order[n - 1])
    }
}

/// What is kept comes from the list, in its order, and nothing else is lost.
proof fn lemma_kept(order: Seq<(LayerTileKey, TilePixels)>, layer: LayerId, n: int)
    requires
        keys_unique(order),
        0 <= n <= order.len(),
    ensures
        keys_unique(kept(order, layer, n)),
        forall|i: int|
            0 <= i < kept(order, layer, n).len() ==> (#[trigger] kept(order, layer, n)[i]).0.layer
                != layer && exists|j: int| 0 <= j < n && #[trigger] order[j] == kept(order, layer, n)[i],
        forall|j: int|
            0 <= j < n && (#[trigger] order[j]).0.layer != layer ==> exists|i: int|
                0 <= i < kept(order, layer, n).len() && #[trigger] kept(order, layer, n)[i]
                    == order[j],
    decreases n,
{
    if n > 0 {
        lemma_kept(order, layer, n - 1);
        let before = kept(order, layer, n - 1);
        let after = kept(order, layer, n);
        if order[n - 1].0.layer != layer {
            assert forall|i: int| 0 <= i < after.len() implies (#[trigger] after[i]).0.layer
                != layer && exists|j: int| 0 <= j < n && #[trigger] order[j] == after[i] by {
                if i < before.len() {
                    assert(after[i] == before[i]);
                    let j = choose|j: int| 0 <= j < n - 1 && #[trigger] order[j] == before[i];
                    assert(order[j] == after[i]);
                } else {
                    assert(order[n - 1] == after[i]);
                }
            }
            assert forall|i: int, j: int|
                #![trigger after[i], after[j]]
                0 <= i < j < after.len() implies after[i].0 != after[j].0 by {
                assert(after[i] == before[i]);
                if j < before.len() {
                    assert(after[j] == before[j]);
                } else {
                    let k = choose|k: int| 0 <= k < n - 1 && #[trigger] order[k] == before[i];
                    assert(order[k].0 != order[n - 1].0);
                }
            }
            assert forall|j: int| 0 <= j < n && (#[trigger] order[j]).0.layer != layer implies
                exists|i: int| 0 <= i < after.len() && #[trigger] after[i] == order[j] by {
                if j < n - 1 {
                    let i = choose|i: int| 0 <= i < before.len() && #[trigger] before[i] == order[j];
                    assert(after[i] == order[j]);
                } else {
                    assert(after[before.len() as int] == order[j]);
                }
            }
        } else {
            assert forall|i: int| 0 <= i < after.len() implies (#[trigger] after[i]).0.layer
                != layer && exists|j: int| 0 <= j < n && #[trigger] order[j] == after[i] by {
                let j = choose|j: int| 0 <= j < n - 1 && #[trigger] order[j] == before[i];
                assert(order[j] == after[i]);
            }
        }
    }
}

proof fn lemma_kept_map(order: Seq<(LayerTileKey, TilePixels)>, layer: LayerId)
    requires
        keys_unique(order),
    ensures
        pixel_map(entries_map(kept(order, layer, order.len() as int))) == with_layer(
            pixel_map(entries_map(order)),
            layer,
            Map::empty(),
        ),
{
    let n = order.len() as int;
    let rest = kept(order, layer, n);
    lemma_kept(order, layer, n);
    let left = pixel_map(entries_map(rest));
    let all = pixel_map(entries_map(order));
    let right = with_layer(all, layer, Map::empty());
    assert forall|key: LayerTileKey| left.contains_key(key) == right.contains_key(key) by {
        if has_key(rest, key) {
            let i = choose|i: int| 0 <= i < rest.len() && (#[trigger] rest[i]).0 == key;
            let j = choose|j: int| 0 <= j < n && #[trigger] order[j] == rest[i];
            assert(order[j].0 == key);
            assert(has_key(order, key));
        }
        if has_key(order, key) && key.layer != layer {
            let j = choose|j: int| 0 <= j < order.len() && (#[trigger] order[j]).0 == key;
            let i = choose|i: int| 0 <= i < rest.len() && #[trigger] rest[i] == order[j];
            assert(rest[i].0 == key);
        }
    }
    assert forall|key: LayerTileKey| left.contains_key(key) implies left[key] == right[key] by {
        let i = choose|i: int| 0 <= i < rest.len() && (#[trigger] rest[i]).0 == key;
        let j = choose|j: int| 0 <= j < n && #[trigger] order[j] == rest[i];
        lemma_entry_in_map(rest, i);
        lemma_entry_in_map(order, j);
    }
    assert(left =~= right);
}

/// The tiles of all layers but one.
fn without_layer(tiles: &KeyedMap<LayerTileKey, TilePixels>, layer: LayerId) -> (rest: KeyedMap<
    LayerTileKey,
    TilePixels,
>)
    requires
        tiles.wf(),
    ensures
        rest.wf(),
        pixel_map(rest@) == with_layer(pixel_map(tiles@), layer, Map::empty()),
{
    let ghost order = tiles.entries@;
    let mut entries: Vec<(LayerTileKey, TilePixels)> = Vec::new();
    let mut i: usize = 0;
    while i < tiles.entries.len()
        invariant
            order == tiles.entries@,
            i <= order.len(),
            entries@ == kept(order, layer, i as int),
        decreases order.len() - i,
    {
        let key = tiles.entries[i].0;
        if key.layer.0 != layer.0 {
            entries.push((key, share(&tiles.entries[i].1)));
        }
        i += 1;
    }
    proof {
        lemma_kept(order, layer, order.len() as int);
        lemma_kept_map(order, layer);
    }
    KeyedMap { entries }
}

impl GpuCpuMirror {
    /// Makes the tiles of `content` the whole of one layer.
    pub(crate) fn set_layer(&mut self, layer: LayerId, content: &Vec<RasterTile>)
        requires
            old(self).wf(),
            keys_unique(tile_entries(content@)),
            tiles_valid(old(self)@.geometry, entries_map(tile_entries(content@))),
        ensures
            final(self).wf(),
            final(self)@ == (MirrorModel {
                tiles: with_layer(old(self)@.tiles, layer, entries_map(tile_entries(content@))),
                ..old(self)@
            }),
    {
        let ghost before = self@;
        let ghost list = tile_entries(content@);
        let mut tiles = without_layer(&self.tiles, layer);
        let mut i: usize = 0;
        proof {
            assert(list.subrange(0, 0) =~= Seq::empty());
            assert(entries_map(list.subrange(0, 0)) =~= Map::<TileCoord, Seq<LinearRgba>>::empty());
        }
        while i < content.len()
            invariant
                before == old(self)@,
                list == tile_entries(content@),
                keys_unique(list),
                i <= content@.len(),
                tiles.wf(),
                pixel_map(tiles@) == with_layer(
                    before.tiles,
                    layer,
                    entries_map(list.subrange(0, i as int)),
                ),
            decreases content@.len() - i,
        {
            let tile = content[i].coord;
            let key = LayerTileKey { layer, tile };
            let shared = share(&content[i].pixels);
            let ghost was = tiles@;
            proof {
                lemma_prefix_map(list, i as int);
                lemma_layer_grows(
                    before.tiles,
                    layer,
                    entries_map(list.subrange(0, i as int)),
                    tile,
                    list[i as int].1,
                );
            }
            tiles.insert(key, shared);
            proof {
                assert(pixel_map(tiles@) =~= pixel_map(was).insert(key, list[i as int].1));
            }
            i += 1;
        }
        assert(list.subrange(0, i as int) =~= list);
        proof {
            lemma_with_layer_valid(before.geometry, before.tiles, layer, entries_map(list));
        }
        self.tiles = tiles;
    }

    /// Makes one layer a copy of another.
    pub(crate) fn clone_layer(&mut self, source: LayerId, destination: LayerId)
        requires
            old(self).wf(),
        ensures
            final(self).wf(),
            final(self)@ == (MirrorModel {
                tiles: with_layer(
                    old(self)@.tiles,
                    destination,
                    layer_tiles(old(self)@.tiles, source),
                ),
                ..old(self)@
            }),
    {
        let ghost before = self@;
        let ghost order = self.tiles.entries@;
        let mut tiles = without_layer(&self.tiles, destination);
        let mut i: usize = 0;
        proof {
            assert(seen_tiles(order, source, 0) =~= Map::<TileCoord, Seq<LinearRgba>>::empty());
        }
        while i < self.tiles.entries.len()
            invariant
                self@ == before,
                before == old(self)@,
                self.wf(),
                order == self.tiles.entries@,
                i <= order.len(),
                tiles.wf(),
                pixel_map(tiles@) == with_layer(
                    before.tiles,
                    destination,
                    seen_tiles(order, source, i as int),
                ),
            decreases order.len() - i,
        {
            let from = self.tiles.entries[i].0;
            proof {
                lemma_seen_step(order, source, i as int);
            }
            if from.layer.0 == source.0 {
                let shared = share(&self.tiles.entries[i].1);
                let key = LayerTileKey { layer: destination, tile: from.tile };
                let ghost was = tiles@;
                let ghost pixels = shared@;
                proof {
                    lemma_layer_grows(
                        before.tiles,
                        destination,
                        seen_tiles(order, source, i as int),
                        from.tile,
                        pixels,
                    );
                }
                tiles.insert(key, shared);
                assert(pixel_map(tiles@) =~= pixel_map(was).insert(key, pixels));
            }
            i += 1;
        }
        proof {
            lemma_seen_all(order, source);
            let content = layer_tiles(before.tiles, source);
            assert forall|tile: TileCoord| #[trigger] content.contains_key(tile) implies
                before.geometry.has_tile(tile) && content[tile].len()
                == before.geometry.tile_len() by {
                assert(before.tiles.contains_key(LayerTileKey { layer: source, tile }));
            }
            lemma_with_layer_valid(before.geometry, before.tiles, destination, content);
        }
        self.tiles = tiles;
    }

    /// Drops the tiles of one layer, and says how many there were.
    pub(crate) fn remove_layer(&mut self, layer: LayerId) -> (count: usize)
        requires
            old(self).wf(),
        ensures
            final(self).wf(),
            final(self)@ == (MirrorModel {
                tiles: with_layer(old(self)@.tiles, layer, Map::empty()),
                ..old(self)@
            }),
            count == layer_tiles(old(self)@.tiles, layer).dom().len(),
            layer_tiles(old(self)@.tiles, layer).dom().finite(),
    {
        let ghost before = self@;
        let ghost order = self.tiles.entries@;
        let rest = without_layer(&self.tiles, layer);
        let mut count: usize = 0;
        let mut i: usize = 0;
        proof {
            assert(seen_tiles(order, layer, 0).dom() =~= Set::empty());
        }
        while i < self.tiles.entries.len()
            invariant
                self.wf(),
                order == self.tiles.entries@,
                i <= order.len(),
                count <= i,
                seen_tiles(order, layer, i as int).dom().finite(),
                seen_tiles(order, layer, i as int).dom().len() == count,
            decreases order.len() - i,
        {
            proof {
                lemma_seen_step(order, layer, i as int);
                lemma_seen_new(order, layer, i as int);
            }
            if self.tiles.entries[i].0.layer.0 == layer.0 {
                proof {
                    assert(seen_tiles(order, layer, i as int + 1).dom() =~= seen_tiles(
                        order,
                        layer,
                        i as int,
                    ).dom().insert(order[i as int].0.tile));
                }
                count += 1;
            }
            i += 1;
        }
        proof {
            lemma_seen_all(order, layer);
            lemma_with_layer_valid(before.geometry, before.tiles, layer, Map::empty());
        }
        self.tiles = rest;
        count
    }

    /// Makes the change, and moves on to `revision`.
    pub(crate) fn restructure(&mut self, revision: DocumentRevision, change: &GpuMirrorStructure)
        requires
            old(self).wf(),
            change.wf(),
            structure_fits(old(self)@.geometry, change@),
        ensures
            final(self).wf(),
            final(self)@ == (MirrorModel {
                revision,
                geometry: old(self)@.geometry,
                tiles: restructured(old(self)@.tiles, change@),
            }),
    {
        match change {
            GpuMirrorStructure::Unchanged => {},
            GpuMirrorStructure::CloneLayer { source, destination } => {
                self.clone_layer(*source, *destination);
            },
            GpuMirrorStructure::InstallLayer(command) => {
                assert(tiles_in_order(tile_entries(command.tiles@)));
                self.set_layer(command.layer, &command.tiles);
            },
        }
        self.revision = revision;
    }
}

proof fn lemma_seen_new(order: Seq<(LayerTileKey, TilePixels)>, layer: LayerId, i: int)
    requires
        keys_unique(order),
        0 <= i < order.len(),
    ensures
        order[i].0.layer == layer ==> !seen_tiles(order, layer, i).contains_key(order[i].0.tile),
{
    let tile = order[i].0.tile;
    if order[i].0.layer == layer && seen_tiles(order, layer, i).contains_key(tile) {
        let j = choose|j: int|
            0 <= j < i && (#[trigger] order[j]).0 == (LayerTileKey { layer, tile });
        assert(order[j].0 != order[i].0);
    }
}

proof fn lemma_prefix_map(list: Seq<(TileCoord, Seq<LinearRgba>)>, i: int)
    requires
        keys_unique(list),
        0 <= i < list.len(),
    ensures
        entries_map(list.subrange(0, i + 1)) == entries_map(list.subrange(0, i)).insert(
            list[i].0,
            list[i].1,
        ),
{
    let before = list.subrange(0, i);
    let after = list.subrange(0, i + 1);
    assert(after =~= before.push(list[i]));
    assert(keys_unique(after));
    assert(keys_unique(before));
    let left = entries_map(after);
    let right = entries_map(before).insert(list[i].0, list[i].1);
    assert forall|tile: TileCoord| left.contains_key(tile) == right.contains_key(tile) by {
        if has_key(after, tile) {
            let j = choose|j: int| 0 <= j < after.len() && (#[trigger] after[j]).0 == tile;
            if j < i {
                assert(before[j].0 == tile);
            }
        }
        if has_key(before, tile) {
            let j = choose|j: int| 0 <= j < before.len() && (#[trigger] before[j]).0 == tile;
            assert(after[j].0 == tile);
        }
        assert(after[i].0 == list[i].0);
    }
    assert forall|tile: TileCoord| left.contains_key(tile) implies left[tile] == right[tile] by {
        let j = choose|j: int| 0 <= j < after.len() && (#[trigger] after[j]).0 == tile;
        lemma_entry_in_map(after, j);
        if j < i {
            assert(before[j] == after[j]);
            lemma_entry_in_map(before, j);
            assert(after[j].0 != after[i].0);
        }
    }
    assert(left =~= right);
}

/// The clone has the pixels of its source, and no other layer changes.
pub proof fn law_cloned_layer_has_the_source_pixels(
    tiles: Map<LayerTileKey, Seq<LinearRgba>>,
    source: LayerId,
    destination: LayerId,
)
    ensures
        ({
            let after = restructured(
                tiles,
                StructureModel::CloneLayer { source, destination },
            );
            &&& layer_tiles(after, destination) == layer_tiles(tiles, source)
            &&& forall|other: LayerId|
                other != destination ==> #[trigger] layer_tiles(after, other) == layer_tiles(
                    tiles,
                    other,
                )
        }),
{
    let after = restructured(tiles, StructureModel::CloneLayer { source, destination });
    assert(layer_tiles(after, destination) =~= layer_tiles(tiles, source));
    assert forall|other: LayerId| other != destination implies #[trigger] layer_tiles(after, other)
        == layer_tiles(tiles, other) by {
        assert(layer_tiles(after, other) =~= layer_tiles(tiles, other));
    }
}

/// The tiles of the first `n` layers of a document.
pub open spec fn document_tiles(document: DocumentModel, n: int) -> Map<
    LayerTileKey,
    Seq<LinearRgba>,
>
    decreases n,
{
    if n <= 0 {
        Map::empty()
    } else {
        with_layer(
            document_tiles(document, n - 1),
            document.metadata.layers[n - 1].id,
            document.rasters[n - 1].tiles,
        )
    }
}

impl GpuCpuMirror {
    /// The pixels of a document that are all in main memory.
    pub fn from_document(document: &Document) -> (mirror: GpuCpuMirror)
        requires
            document.wf(),
        ensures
            mirror.wf(),
            mirror@ == (MirrorModel {
                revision: document@.metadata.revision,
                geometry: document@.metadata.geometry,
                tiles: document_tiles(document@, document@.metadata.layers.len() as int),
            }),
    {
        let metadata = &document.metadata;
        let tile_size: u32 = metadata.tile_size;
        assert(metadata@.geometry.valid());
        let count: u32 = tile_size * tile_size;
        let mut mirror = GpuCpuMirror {
            revision: metadata.revision,
            width: metadata.width,
            height: metadata.height,
            tile_size,
            tile_pixel_count: count as usize,
            tiles: KeyedMap::new(),
        };
        assert(mirror@.tiles =~= Map::<LayerTileKey, Seq<LinearRgba>>::empty());
        let mut i: usize = 0;
        while i < document.rasters.len()
            invariant
                document.wf(),
                metadata == document.metadata,
                i <= document.rasters@.len(),
                mirror.wf(),
                mirror@ == (MirrorModel {
                    revision: document@.metadata.revision,
                    geometry: document@.metadata.geometry,
                    tiles: document_tiles(document@, i as int),
                }),
            decreases document.rasters@.len() - i,
        {
            let layer = metadata.layers[i].id;
            proof {
                assert(document@.metadata.layers[i as int] == metadata.layers@[i as int]@);
                assert(document@.rasters[i as int] == document.rasters@[i as int]@);
                assert(document.rasters@[i as int].wf());
            }
            let tiles = document.rasters[i].checkpoint_tiles();
            mirror.set_layer(layer, &tiles);
            i += 1;
        }
        mirror
    }
}

} // verus!
