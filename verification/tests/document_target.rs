use gpu_document::gpu_document_target::{
    check_token_target, GpuDocumentTargetError, GpuDocumentTargetId, GpuDocumentTargetIds,
};
use gpu_document::stroke::{StrokeAccumulation, StrokeMaterial};

#[test]
fn target_identities_are_process_unique() {
    let mut ids = GpuDocumentTargetIds::new();
    let first = ids.allocate().unwrap();
    let second = ids.allocate().unwrap();
    assert_ne!(first, second);
    assert_ne!(first.get(), 0);
    assert_ne!(second.get(), 0);
}

#[test]
fn opaque_tokens_reject_a_different_target_identity() {
    let expected = GpuDocumentTargetId::from_raw(11);
    let actual = GpuDocumentTargetId::from_raw(12);
    assert_eq!(check_token_target(expected, expected), Ok(()));
    assert_eq!(
        check_token_target(expected, actual),
        Err(GpuDocumentTargetError::TargetTokenMismatch { expected, actual })
    );
}

#[test]
fn material_contract_distinguishes_full_flow_from_density() {
    let color = [0.2_f32.to_bits(), 0.4_f32.to_bits(), 0.8_f32.to_bits()];
    let full =
        StrokeMaterial::paint(color, 0.5_f32.to_bits(), 1.0_f32.to_bits()).unwrap();
    assert_eq!(full.accumulation(), StrokeAccumulation::CoverageUnion);
    let density =
        StrokeMaterial::paint(color, 0.5_f32.to_bits(), 0.25_f32.to_bits()).unwrap();
    assert!(matches!(
        density.accumulation(),
        StrokeAccumulation::OpticalDensity { .. }
    ));
}
