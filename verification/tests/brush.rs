use gpu_document::brush_source::{brush_source, material_brush_source};

const HOST: &str = "fn clear_fs() -> @location(0) f32 {\n    return 0.0;\n}\n\
fn round_fs(input: RoundVertexOutput) -> @location(0) f32 {\n    let brush = read(input);\n    \
let coverage = brush_coverage(brush);\n    return coverage;\n}\n// end\n";

#[test]
fn a_package_follows_its_host() {
    assert_eq!(brush_source("host", "brush é"), "host\nbrush é");
    assert_eq!(brush_source("", ""), "\n");
}

#[test]
fn a_material_package_answers_with_coverage_and_height() {
    let source = material_brush_source(HOST, "fn brush_deposit() {}").unwrap();
    assert_eq!(
        source,
        "fn clear_fs() -> @location(0) vec2<f32> {\n    return vec2<f32>(0.0);\n}\n\
fn round_fs(input: RoundVertexOutput) -> @location(0) vec2<f32> {\n    let brush = read(input);\n\
\x20   let deposit = brush_deposit(brush);\n    let coverage = select(0.0, min(deposit.x, 1.0), \
deposit.x > 0.0);\n    let height = select(0.0, min(deposit.y, 4.0), deposit.y > 0.0);\n    \
return vec2<f32>(coverage, height * coverage);\n}\n// end\n\nfn brush_deposit() {}"
    );
}

#[test]
fn every_clear_step_of_the_host_is_widened() {
    let doubled = format!("é{HOST}{HOST}");
    let source = material_brush_source(&doubled, "").unwrap();
    assert_eq!(source.matches("fn clear_fs() -> @location(0) vec2<f32>").count(), 2);
    assert!(!source.contains("@location(0) f32"));
    assert_eq!(source.matches("brush_deposit(brush)").count(), 1);
    assert_eq!(source.matches("brush_coverage(brush)").count(), 1);
}

#[test]
fn a_host_without_a_coverage_step_hosts_no_material() {
    assert_eq!(material_brush_source("fn other() {\n}", "package"), None);
    assert_eq!(
        material_brush_source("\n}\n    let coverage = brush_coverage(brush);", "package"),
        None
    );
}
