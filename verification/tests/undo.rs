use gpu_document::document::LayerId;
use gpu_document::gpu_atlas::{AtlasLayout, LayerTileKey, SparseAtlasPlanner};
use gpu_document::gpu_document_undo::{
    GpuUndoCapturePlan, GpuUndoPlanError, GPU_UNDO_BLOCK_BYTES,
};
use gpu_document::gpu_round_target::ActiveRoundMaskTile;
use gpu_document::raster::{RectU32, TileCoord};

fn active_tile(
    atlas: &mut SparseAtlasPlanner,
    layer: LayerId,
    tile: TileCoord,
    damage: RectU32,
) -> ActiveRoundMaskTile {
    let key = LayerTileKey::new(layer, tile);
    let slot = atlas.allocate(key).unwrap().slot;
    ActiveRoundMaskTile { key, slot, local_damage: damage }
}

#[test]
fn one_pixel_rounds_to_one_copy_aligned_full_float_block() {
    let layout = AtlasLayout::document_default();
    let mut atlas = SparseAtlasPlanner::new(layout);
    let tile = active_tile(
        &mut atlas,
        LayerId::from_raw(1),
        TileCoord::new(0, 0),
        RectU32::from_xywh(17, 31, 1, 1).unwrap(),
    );
    let plan = GpuUndoCapturePlan::from_active_tiles(layout, &vec![tile]).unwrap();
    assert_eq!(plan.block_count(), 1);
    assert_eq!(plan.byte_len(), GPU_UNDO_BLOCK_BYTES);
    assert_eq!(plan.regions().len(), 1);
    assert_eq!(
        plan.regions()[0].local_bounds,
        RectU32::from_min_max(16, 16, 32, 32).unwrap()
    );
    assert_eq!(plan.regions()[0].bytes_per_row, 256);
}

#[test]
fn rectangular_block_work_coalesces_into_one_copy_region_per_tile() {
    let layout = AtlasLayout::document_default();
    let mut atlas = SparseAtlasPlanner::new(layout);
    let layer = LayerId::from_raw(2);
    let left = active_tile(
        &mut atlas,
        layer,
        TileCoord::new(0, 0),
        RectU32::from_min_max(15, 15, 33, 49).unwrap(),
    );
    let right = active_tile(
        &mut atlas,
        layer,
        TileCoord::new(1, 0),
        RectU32::from_min_max(0, 55, 73, 73).unwrap(),
    );
    let plan = GpuUndoCapturePlan::from_active_tiles(layout, &vec![right, left]).unwrap();
    assert_eq!(plan.regions().len(), 2);
    assert_eq!(plan.regions()[0].block_count, 12);
    assert_eq!(plan.regions()[1].block_count, 10);
    assert_eq!(plan.block_count(), 22);
    assert_eq!(plan.regions()[1].buffer_offset, 12 * GPU_UNDO_BLOCK_BYTES);
    assert_eq!(plan.byte_len(), 22 * GPU_UNDO_BLOCK_BYTES);
}

#[test]
fn a_full_tile_is_sixty_four_blocks_but_one_copy_region() {
    let layout = AtlasLayout::document_default();
    let mut atlas = SparseAtlasPlanner::new(layout);
    let tile = active_tile(
        &mut atlas,
        LayerId::from_raw(3),
        TileCoord::new(0, 0),
        RectU32::from_xywh(0, 0, 128, 128).unwrap(),
    );
    let plan = GpuUndoCapturePlan::from_active_tiles(layout, &vec![tile]).unwrap();
    assert_eq!(plan.block_count(), 64);
    assert_eq!(plan.regions().len(), 1);
    assert_eq!(plan.byte_len(), 128 * 128 * 16);
    assert_eq!(plan.regions()[0].bytes_per_row, 2_048);
}

#[test]
fn incompatible_tile_size_fails_before_planning() {
    let layout = AtlasLayout::new(240, 120, 1).unwrap();
    assert_eq!(
        GpuUndoCapturePlan::from_active_tiles(layout, &vec![]).unwrap_err(),
        GpuUndoPlanError::TileSizeNotBlockAligned { tile_size: 120, block_size: 16 }
    );
}
