use slang_preview::glslang::{parse_diagnostics, parse_location, spirv_bytes, spirv_words, GlslangError};
use slang_preview::spirv_opt::{inlined_words, SpirvOptError};

#[test]
fn parses_error_line_numbers() {
    let raw = "ERROR: shader.frag:3: 'nope' : undeclared identifier\n\
               ERROR: 1 compilation errors.  No code generated.\n";
    let diags = parse_diagnostics(raw);
    assert!(diags.iter().any(|d| d.line == Some(3) && d.message.contains("undeclared")));
}

#[test]
fn diagnostics_keep_order_and_skip_other_lines() {
    let raw = "glslangValidator output\n  WARNING: a.vert:10: unused\nERROR: summary only\nERROR: x:y:\n";
    let diags = parse_diagnostics(raw);
    assert_eq!(diags.len(), 3);
    assert_eq!((diags[0].line, diags[0].message.as_str()), (Some(10), "unused"));
    assert_eq!((diags[1].line, diags[1].message.as_str()), (None, "summary only"));
    // "y" is no line number: the whole body is the message.
    assert_eq!((diags[2].line, diags[2].message.as_str()), (None, "x:y:"));
}

#[test]
fn location_needs_a_number_between_two_colons() {
    assert_eq!(parse_location("f.frag:12: msg "), (Some(12), "msg".to_string()));
    assert_eq!(parse_location("f.frag: +7 :m"), (Some(7), "m".to_string()));
    assert_eq!(parse_location("f.frag:99999999999: m"), (None, "f.frag:99999999999: m".to_string()));
    assert_eq!(parse_location(" no colon "), (None, "no colon".to_string()));
    assert_eq!(parse_location("a:-1: m"), (None, "a:-1: m".to_string()));
}

#[test]
fn spirv_words_are_little_endian_and_whole() {
    let w = spirv_words(&[0x03, 0x02, 0x23, 0x07, 1, 0, 0, 0]).unwrap();
    assert_eq!(w, vec![0x0723_0203, 1]);
    assert!(matches!(spirv_words(&[1, 2, 3]), Err(GlslangError::MalformedSpirv)));
    assert!(matches!(inlined_words(&[1, 2, 3, 4, 5]), Err(SpirvOptError::MalformedSpirv)));
    assert_eq!(inlined_words(&[]).unwrap(), Vec::<u32>::new());
}

#[test]
fn spirv_bytes_round_trip() {
    let words = vec![0x0723_0203u32, 0xDEAD_BEEF, 0];
    let bytes = spirv_bytes(&words);
    assert_eq!(&bytes[0..4], &[0x03, 0x02, 0x23, 0x07]);
    assert_eq!(spirv_words(&bytes).unwrap(), words);
}
