//! Verified bookkeeping for a GPU resident paint document.

pub mod brush;
pub mod brush_source;
pub mod device;
pub mod document;
pub mod document_laws;
pub mod document_metadata;
pub mod error_text;
pub mod gpu_atlas;
pub mod gpu_atlas_laws;
pub mod gpu_blade_laws;
pub mod gpu_blade_stroke;
pub mod gpu_check_laws;
pub mod gpu_commit_laws;
pub mod gpu_cpu_mirror;
pub mod gpu_document_history;
pub mod gpu_document_mirror;
pub mod gpu_document_mirror_dispatcher;
pub mod gpu_document_recovery;
pub mod gpu_document_target;
pub mod gpu_document_undo;
pub mod gpu_exact_laws;
pub mod gpu_history_archive;
pub mod gpu_history_laws;
pub mod gpu_history_recovery;
pub mod gpu_history_residency;
pub mod gpu_input_laws;
pub mod gpu_layer_laws;
pub mod gpu_layer_recovery;
pub mod gpu_layer_residents;
pub mod gpu_live_recovery;
pub mod gpu_mask_laws;
pub mod gpu_material;
pub mod gpu_material_commit;
pub mod gpu_mirror_capture;
pub mod gpu_mirror_laws;
pub mod gpu_mirror_reconciler;
pub mod gpu_mirror_structure;
pub mod gpu_pixel_laws;
pub mod gpu_raster_laws;
pub mod gpu_raster_recovery;
pub mod gpu_raster_replay;
pub mod gpu_raster_transition;
pub mod gpu_readback_laws;
pub mod gpu_recovery_journal;
pub mod gpu_recovery_replay;
pub mod gpu_recovery_timeline;
pub mod gpu_region_order;
pub mod gpu_replay_laws;
pub mod gpu_report_laws;
pub mod gpu_resident_archive;
pub mod gpu_resident_commit;
pub mod gpu_resident_document;
pub mod gpu_resident_history;
pub mod gpu_resident_laws;
pub mod gpu_resident_layers;
pub mod gpu_resident_metadata;
pub mod gpu_resident_mirror;
pub mod gpu_resident_round_batch;
pub mod gpu_resident_round_commit;
pub mod gpu_resident_round_stroke;
pub mod gpu_resident_strokes;
pub mod gpu_revision_tasks;
pub mod gpu_round;
pub mod gpu_round_recovery;
pub mod gpu_round_stroke_laws;
pub mod gpu_round_target;
pub mod gpu_schedule_laws;
pub mod gpu_spill_laws;
pub mod gpu_stroke;
pub mod gpu_stroke_laws;
pub mod gpu_stroke_target;
pub mod gpu_structural_recovery;
pub mod keyed_map;
pub mod ordering;
pub mod pixel_grid;
pub mod raster;
pub mod raster_layer;
pub mod shared;
pub mod stroke;
pub mod text;
