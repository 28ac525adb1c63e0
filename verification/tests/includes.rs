use slang_preview::includes::{IncludeResolver, IncludeStep};
use slang_preview::preprocess::{PreprocessError, MAX_INCLUDE_DEPTH};

#[test]
fn a_source_without_includes_is_its_lines_newline_terminated() {
    let mut r = IncludeResolver::new("a\r\nb\nc");
    match r.step() {
        IncludeStep::Done(s) => assert_eq!(s, "a\nb\nc\n"),
        other => panic!("expected Done, got {other:?}"),
    }
}

#[test]
fn includes_are_expanded_in_place_with_a_trailing_newline() {
    let mut r = IncludeResolver::new("top\n#include \"a.inc\"\nbottom\n");
    match r.step() {
        IncludeStep::Read { path, depth } => {
            assert_eq!(path, "a.inc");
            assert_eq!(depth, 1);
        }
        other => panic!("expected Read, got {other:?}"),
    }
    // The included file nests one more include.
    r.supply("inner1\n#include \"b.inc\"");
    match r.step() {
        IncludeStep::Read { path, depth } => {
            assert_eq!(path, "b.inc");
            assert_eq!(depth, 2);
        }
        other => panic!("expected Read, got {other:?}"),
    }
    r.supply("");
    match r.step() {
        IncludeStep::Done(s) => assert_eq!(s, "top\ninner1\nbottom\n"),
        other => panic!("expected Done, got {other:?}"),
    }
}

#[test]
fn an_empty_include_at_the_start_still_ends_its_line() {
    let mut r = IncludeResolver::new("#include \"e\"\nz");
    assert!(matches!(r.step(), IncludeStep::Read { .. }));
    r.supply("");
    match r.step() {
        IncludeStep::Done(s) => assert_eq!(s, "\nz\n"),
        other => panic!("expected Done, got {other:?}"),
    }
}

#[test]
fn self_inclusion_stops_at_the_depth_limit() {
    let mut r = IncludeResolver::new("#include \"self.slang\"\n");
    let mut reads = 0;
    loop {
        match r.step() {
            IncludeStep::Read { .. } => {
                reads += 1;
                r.supply("#include \"self.slang\"\n");
            }
            IncludeStep::Failed(PreprocessError::IncludeCycle { path }) => {
                assert_eq!(path, "self.slang");
                break;
            }
            other => panic!("unexpected {other:?}"),
        }
    }
    assert_eq!(reads, MAX_INCLUDE_DEPTH);
}
