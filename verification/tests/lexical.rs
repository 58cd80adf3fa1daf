use dotrain::ast::Offsets;
use dotrain::error::Error;
use dotrain::lexer::{TokenPattern, exclusive_parse, fill_in, fill_out, inclusive_parse, tracked_trim};
use dotrain::offsets::{Position, line_number, offset_at, position_at};

#[test]
fn position_at_basics() {
    let text = "ab\ncd";
    assert_eq!(position_at(text, 0), Position { line: 0, character: 0 });
    assert_eq!(position_at(text, 2), Position { line: 0, character: 2 });
    assert_eq!(position_at(text, 3), Position { line: 1, character: 0 });
    assert_eq!(position_at(text, 4), Position { line: 1, character: 1 });
    // offsets past the end are clamped to the end
    assert_eq!(position_at(text, 99), Position { line: 1, character: 2 });
}

#[test]
fn position_at_empty_text() {
    assert_eq!(position_at("", 0), Position { line: 0, character: 0 });
    assert_eq!(position_at("", 7), Position { line: 0, character: 0 });
}

#[test]
fn offset_at_basics() {
    let text = "ab\ncd";
    assert_eq!(offset_at(text, &Position { line: 0, character: 0 }), 0);
    assert_eq!(offset_at(text, &Position { line: 1, character: 1 }), 4);
    // characters past the line end are clamped to the next line start
    assert_eq!(offset_at(text, &Position { line: 0, character: 99 }), 3);
    // lines out of range are clamped to the text end
    assert_eq!(offset_at(text, &Position { line: 9, character: 0 }), 5);
}

#[test]
fn offset_position_round_trip() {
    // for any offset in range the mapping goes there and back
    let text = "first line\nsecond\n\nfourth";
    for o in 0..=text.len() {
        let p = position_at(text, o);
        assert_eq!(offset_at(text, &p), o);
    }
}

#[test]
fn round_trip_with_trailing_newline() {
    let text = "ab\n";
    for o in 0..=text.len() {
        let p = position_at(text, o);
        assert_eq!(offset_at(text, &p), o);
    }
}

#[test]
fn line_number_basics() {
    let text = "ab\ncd\nef";
    assert_eq!(line_number(text, 0), 0);
    assert_eq!(line_number(text, 4), 1);
    assert_eq!(line_number(text, 7), 2);
}

#[test]
fn inclusive_parse_finds_whitespace_runs() {
    let items = inclusive_parse("a b  c", TokenPattern::WhitespaceRun, 0);
    assert_eq!(items.len(), 2);
    assert_eq!(items[0].0, " ");
    assert_eq!(items[0].1, Offsets { start: 1, end: 2 });
    assert_eq!(items[1].0, "  ");
    assert_eq!(items[1].1, Offsets { start: 3, end: 5 });
}

#[test]
fn inclusive_parse_applies_offset() {
    let items = inclusive_parse("x y", TokenPattern::WhitespaceRun, 10);
    assert_eq!(items.len(), 1);
    assert_eq!(items[0].1, Offsets { start: 11, end: 12 });
}

#[test]
fn exclusive_parse_splits_between_matches() {
    let items = exclusive_parse("a b  c", TokenPattern::WhitespaceRun, 0, false);
    let texts: Vec<&str> = items.iter().map(|i| i.0.as_str()).collect();
    assert_eq!(texts, vec!["a", "b", "c"]);
    assert_eq!(items[0].1, Offsets { start: 0, end: 1 });
    assert_eq!(items[1].1, Offsets { start: 2, end: 3 });
    assert_eq!(items[2].1, Offsets { start: 5, end: 6 });
}

#[test]
fn exclusive_parse_keeps_empty_ends_on_demand() {
    let kept = exclusive_parse(" a ", TokenPattern::WhitespaceRun, 0, true);
    let texts: Vec<&str> = kept.iter().map(|i| i.0.as_str()).collect();
    assert_eq!(texts, vec!["", "a", ""]);
    let dropped = exclusive_parse(" a ", TokenPattern::WhitespaceRun, 0, false);
    let texts2: Vec<&str> = dropped.iter().map(|i| i.0.as_str()).collect();
    assert_eq!(texts2, vec!["a"]);
}

#[test]
fn exclusive_parse_on_dots() {
    let items = exclusive_parse("a.b.", TokenPattern::Dot, 0, true);
    let texts: Vec<&str> = items.iter().map(|i| i.0.as_str()).collect();
    assert_eq!(texts, vec!["a", "b", ""]);
}

#[test]
fn parse_partition_reconstructs_text() {
    // the matches and the spans between them tile the source exactly
    for text in ["a b  c", "  lead", "trail  ", "", "   ", "one"] {
        let inc = inclusive_parse(text, TokenPattern::WhitespaceRun, 0);
        let exc = exclusive_parse(text, TokenPattern::WhitespaceRun, 0, true);
        let mut pieces: Vec<(usize, String)> = Vec::new();
        for i in &inc {
            pieces.push((i.1.start, i.0.clone()));
        }
        for e in &exc {
            pieces.push((e.1.start, e.0.clone()));
        }
        pieces.sort_by_key(|p| p.0);
        let rebuilt: String = pieces.into_iter().map(|p| p.1).collect();
        assert_eq!(rebuilt, text);
    }
}

#[test]
fn parsing_is_idempotent() {
    // parsing the same text twice yields identical results
    let a = exclusive_parse("a b c", TokenPattern::WhitespaceRun, 0, true);
    let b = exclusive_parse("a b c", TokenPattern::WhitespaceRun, 0, true);
    assert_eq!(a, b);
}

#[test]
fn fill_in_redacts_range() {
    let mut text = String::from("ab\ncd");
    fill_in(&mut text, Offsets { start: 0, end: 4 }).unwrap();
    assert_eq!(text, "  \n d");
}

#[test]
fn fill_in_preserves_length_and_newlines() {
    let mut text = String::from("one\ntwo\nthree");
    let before = text.clone();
    fill_in(&mut text, Offsets { start: 2, end: 9 }).unwrap();
    assert_eq!(text.len(), before.len());
    for (i, c) in before.chars().enumerate() {
        if c == '\n' {
            assert_eq!(text.as_bytes()[i], b'\n');
        }
    }
}

#[test]
fn fill_in_out_of_bounds() {
    let mut text = String::from("abc");
    let r = fill_in(&mut text, Offsets { start: 1, end: 9 });
    assert_eq!(r, Err(Error::OutOfCharBoundary));
    assert_eq!(text, "abc");
}

#[test]
fn fill_out_keeps_only_range() {
    let mut text = String::from("ab\ncd");
    fill_out(&mut text, Offsets { start: 3, end: 5 }).unwrap();
    assert_eq!(text, "  \ncd");
}

#[test]
fn fill_out_out_of_bounds() {
    let mut text = String::from("abc");
    let r = fill_out(&mut text, Offsets { start: 9, end: 9 });
    assert_eq!(r, Err(Error::OutOfCharBoundary));
    assert_eq!(text, "abc");
}

#[test]
fn tracked_trim_counts_deletions() {
    assert_eq!(tracked_trim("  ab "), ("ab", 2, 1));
    assert_eq!(tracked_trim("ab"), ("ab", 0, 0));
    assert_eq!(tracked_trim("   "), ("", 3, 3));
    assert_eq!(tracked_trim(""), ("", 0, 0));
    assert_eq!(tracked_trim("\t\na b\r"), ("a b", 2, 1));
}
