use slang_preview::bindtable::{split_indexed, TextureClass};

#[test]
fn classify_direct_semantics() {
    let none: &[String] = &[];
    assert_eq!(TextureClass::classify("Source", none), TextureClass::Source);
    assert_eq!(TextureClass::classify("Original", none), TextureClass::Original);
}

#[test]
fn classify_pass_output_both_spellings() {
    let none: &[String] = &[];
    assert_eq!(TextureClass::classify("PassOutput0", none), TextureClass::PassOutput(0));
    assert_eq!(TextureClass::classify("Pass2", none), TextureClass::PassOutput(2));
    assert_eq!(TextureClass::classify("PassOutput12", none), TextureClass::PassOutput(12));
}

#[test]
fn classify_history_zero_is_original() {
    let none: &[String] = &[];
    assert_eq!(TextureClass::classify("OriginalHistory0", none), TextureClass::Original);
    assert_eq!(TextureClass::classify("OriginalHistory1", none), TextureClass::OriginalHistory(1));
}

#[test]
fn classify_feedback_and_aliases() {
    let aliases = vec!["FOO".to_string()];
    assert_eq!(TextureClass::classify("FOO", &aliases), TextureClass::Alias("FOO".to_string()));
    assert_eq!(
        TextureClass::classify("FOOFeedback", &aliases),
        TextureClass::AliasFeedback("FOO".to_string())
    );
    assert_eq!(TextureClass::classify("PassFeedback1", &aliases), TextureClass::PassFeedback(1));
}

#[test]
fn classify_unknown_falls_through_to_lut() {
    let none: &[String] = &[];
    assert_eq!(TextureClass::classify("BORDER", none), TextureClass::Lut("BORDER".to_string()));
    assert_eq!(TextureClass::classify("User0", none), TextureClass::Lut("User0".to_string()));
}

#[test]
fn renderer_resolved_set() {
    assert!(TextureClass::Source.is_resolved_by_renderer());
    assert!(TextureClass::Original.is_resolved_by_renderer());
    assert!(TextureClass::PassOutput(0).is_resolved_by_renderer());
    assert!(TextureClass::Alias("X".into()).is_resolved_by_renderer());
    assert!(!TextureClass::PassFeedback(0).is_resolved_by_renderer());
    assert!(!TextureClass::OriginalHistory(1).is_resolved_by_renderer());
    assert!(!TextureClass::Lut("BORDER".into()).is_resolved_by_renderer());
}

#[test]
fn split_indexed_parses_trailing_digits() {
    assert_eq!(split_indexed("PassOutput3"), Some(("PassOutput".to_string(), 3)));
    assert_eq!(split_indexed("Pass0"), Some(("Pass".to_string(), 0)));
    assert_eq!(split_indexed("OriginalHistory12"), Some(("OriginalHistory".to_string(), 12)));
    assert_eq!(split_indexed("Source"), None);
    assert_eq!(split_indexed("Original"), None);
}

#[test]
fn split_indexed_rejects_all_digit_and_overflowing_names() {
    assert_eq!(split_indexed("123"), None);
    assert_eq!(split_indexed(""), None);
    assert_eq!(split_indexed("Pass99999999999999999999999"), None);
}

#[test]
fn classify_alias_order_wins_over_semantics() {
    // An alias spelled like a semantic name is still an alias.
    let aliases = vec!["Pass1".to_string()];
    assert_eq!(TextureClass::classify("Pass1", &aliases), TextureClass::Alias("Pass1".to_string()));
    assert_eq!(TextureClass::classify("Pass2", &aliases), TextureClass::PassOutput(2));
    // Exact Source/Original take precedence over aliases.
    let shadow = vec!["Source".to_string()];
    assert_eq!(TextureClass::classify("Source", &shadow), TextureClass::Source);
}

use slang_preview::bindtable::{layout_entries, EntryKind, LayoutEntry};
use slang_preview::reflect::{BlockBinding, ResourceBinding, SpirvReflection, UniformBlock};

fn res(name: &str, set: u32, binding: u32) -> ResourceBinding {
    ResourceBinding { name: name.to_string(), set, binding }
}

fn block(binding: BlockBinding) -> UniformBlock {
    UniformBlock { name: None, binding, size: 16, members: vec![] }
}

#[test]
fn legacy_fixture_layout_is_ubo_texture_sampler_params() {
    let r = SpirvReflection {
        blocks: vec![
            block(BlockBinding::Uniform { set: 0, binding: 3 }),
            block(BlockBinding::Uniform { set: 0, binding: 0 }),
            block(BlockBinding::PushConstant),
        ],
        textures: vec![res("Source", 0, 1), res("Other", 1, 0)],
        samplers: vec![res("Smp", 0, 2)],
    };
    let e = layout_entries(&r);
    assert_eq!(
        e,
        vec![
            LayoutEntry { binding: 0, kind: EntryKind::UniformBuffer },
            LayoutEntry { binding: 1, kind: EntryKind::Texture },
            LayoutEntry { binding: 2, kind: EntryKind::Sampler },
            LayoutEntry { binding: 3, kind: EntryKind::UniformBuffer },
        ]
    );
}

#[test]
fn equal_bindings_keep_their_order() {
    let r = SpirvReflection {
        blocks: vec![],
        textures: vec![res("A", 0, 5)],
        samplers: vec![res("S", 0, 5), res("T", 0, 4)],
    };
    let e = layout_entries(&r);
    assert_eq!(
        e,
        vec![
            LayoutEntry { binding: 4, kind: EntryKind::Sampler },
            LayoutEntry { binding: 5, kind: EntryKind::Texture },
            LayoutEntry { binding: 5, kind: EntryKind::Sampler },
        ]
    );
}
