use slang_preview::preprocess::{
    parse_include, parse_parameter, preprocess, PreprocessError, Stage, MAX_INCLUDE_DEPTH,
};

const SHADER: &str = "\
#version 450
#pragma name my_pass
#pragma format R8G8B8A8_UNORM
#pragma parameter WARP \"Warp amount\" 0.5 0.0 1.0 0.01
layout(set = 0, binding = 0) uniform UBO { mat4 MVP; } global;
#pragma stage vertex
layout(location = 0) in vec4 Position;
void main() { gl_Position = global.MVP * Position; }
#pragma stage fragment
layout(location = 0) out vec4 FragColor;
void main() { FragColor = vec4(1.0); }
";

#[test]
fn splits_stages_with_shared_common() {
    let p = preprocess(SHADER).unwrap();
    assert!(p.vertex.contains("#version 450"));
    assert!(p.fragment.contains("#version 450"));
    assert!(p.vertex.contains("uniform UBO"));
    assert!(p.fragment.contains("uniform UBO"));
    assert!(p.vertex.contains("in vec4 Position"));
    assert!(!p.fragment.contains("in vec4 Position"));
    assert!(p.fragment.contains("out vec4 FragColor"));
    assert!(!p.vertex.contains("out vec4 FragColor"));
    assert!(!p.vertex.contains("#pragma"));
    assert!(!p.fragment.contains("#pragma"));
}

#[test]
fn extracts_metadata_and_parameter() {
    let p = preprocess(SHADER).unwrap();
    assert_eq!(p.reflection.name.as_deref(), Some("my_pass"));
    assert_eq!(p.reflection.format.as_deref(), Some("R8G8B8A8_UNORM"));
    assert_eq!(p.reflection.parameters.len(), 1);
    let param = &p.reflection.parameters[0];
    assert_eq!(param.name, "WARP");
    assert_eq!(param.label, "Warp amount");
    assert_eq!(param.default.parse::<f32>().unwrap(), 0.5);
    assert_eq!(param.min.parse::<f32>().unwrap(), 0.0);
    assert_eq!(param.max.parse::<f32>().unwrap(), 1.0);
    assert_eq!(param.step.as_deref().unwrap().parse::<f32>().unwrap(), 0.01);
}

#[test]
fn missing_stage_is_an_error() {
    let err = preprocess("#version 450\nvoid main() {}\n").unwrap_err();
    assert!(matches!(err, PreprocessError::MissingStage));
}

#[test]
fn parameter_step_is_optional() {
    let p = parse_parameter("GAMMA \"Gamma\" 1.0 0.5 2.0").unwrap();
    assert_eq!(p.step, None);
    assert_eq!(p.name, "GAMMA");
}

#[test]
fn stage_output_is_the_common_preamble_then_its_lines() {
    let src = "#version 450\nshared();\n#pragma stage vertex\nv();\n#pragma stage fragment\nf();\n";
    let p = preprocess(src).unwrap();
    assert_eq!(p.vertex, "#version 450\nshared();\nv();\n");
    assert_eq!(p.fragment, "#version 450\nshared();\nf();\n");
}

#[test]
fn other_pragmas_and_unknown_stages_are_kept_in_place() {
    let src = "#pragma stage vertex\n#pragma optimize(on)\n#pragma stage geometry\ng();\n";
    let p = preprocess(src).unwrap();
    // An unknown stage keeps the current one (vertex) and its line stays as code.
    assert_eq!(p.vertex, "#pragma optimize(on)\n#pragma stage geometry\ng();\n");
    assert_eq!(p.fragment, "");
}

#[test]
fn unknown_stage_line_is_emitted_into_the_current_stage() {
    let p = preprocess("#pragma stage vertex\nV\n#pragma stage geometry\nG\n").unwrap();
    assert_eq!(p.vertex, "V\n#pragma stage geometry\nG\n");
    assert_eq!(p.fragment, "");
}

#[test]
fn only_an_unknown_stage_is_a_missing_stage() {
    let err = preprocess("#pragma stage geometry\nvoid main() {}\n").unwrap_err();
    assert!(matches!(err, PreprocessError::MissingStage));
}

#[test]
fn malformed_parameter_is_reported_with_its_argument() {
    let err = preprocess("#pragma parameter X \"no numbers\"\n#pragma stage vertex\n").unwrap_err();
    match err {
        PreprocessError::BadParameter { line } => assert_eq!(line, "X \"no numbers\""),
        other => panic!("expected BadParameter, got {other:?}"),
    }
}

#[test]
fn parameter_literals_follow_float_syntax() {
    assert!(parse_parameter("A \"a\" 1 -2.5e3 +inf").is_ok());
    assert!(parse_parameter("A \"a\" 1 2 3 NaN").unwrap().step.is_some());
    assert!(parse_parameter("A \"a\" 1 2 3 abc").unwrap().step.is_none());
    assert!(parse_parameter("A \"a\" 1 2 x").is_err());
    assert!(parse_parameter("A \"a\" 1. .5 1e").is_err());
    assert!(parse_parameter("A \"unterminated 1 2 3").is_err());
    assert!(parse_parameter("A").is_err());
}

#[test]
fn last_name_and_format_win() {
    let src = "#pragma name a\n#pragma name  b \n#pragma format X\n#pragma stage fragment\n";
    let p = preprocess(src).unwrap();
    assert_eq!(p.reflection.name.as_deref(), Some("b"));
    assert_eq!(p.reflection.format.as_deref(), Some("X"));
}

#[test]
fn include_lines_name_the_quoted_path() {
    assert_eq!(parse_include("#include \"inc/common.h\""), Some("inc/common.h".to_string()));
    assert_eq!(parse_include("   #include    \"a.inc\" // trailing"), Some("a.inc".to_string()));
    assert_eq!(parse_include("#include <a.h>"), None);
    assert_eq!(parse_include("#include \"open"), None);
    assert_eq!(parse_include("// #include \"x\""), None);
    assert_eq!(MAX_INCLUDE_DEPTH, 32);
}

#[test]
fn stage_names_for_glslang() {
    assert_eq!(Stage::Vertex.glslang_name(), "vert");
    assert_eq!(Stage::Fragment.glslang_name(), "frag");
}
