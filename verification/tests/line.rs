use editor_text::text::line::Line;
use editor_text::text::line_pool::LinePool;

#[test]
fn line_extend_counts_graphemes() {
    let mut line = Line::new();
    line.extend("ab");
    line.extend("e\u{301}x");
    assert_eq!(line.len(), 4);
}

#[test]
fn line_edits_by_grapheme() {
    let mut line = Line::new();
    line.extend("ae\u{301}c");
    line.insert_grapheme(1, "X");
    assert_eq!(line.len(), 4);
    assert_eq!(line.grapheme_start(2), Some(2));
    assert_eq!(line.grapheme_start(3), Some(5));
    line.remove_graphemes(1, 3);
    assert_eq!(line.len(), 2);
    assert_eq!(line.grapheme_start(1), Some(1));
    assert_eq!(line.grapheme_start(2), Some(2));
    assert_eq!(line.grapheme_start(3), None);
    line.truncate_graphemes(1);
    assert_eq!(line.len(), 1);
    assert_eq!(line.grapheme_start(1), Some(1));
    assert_eq!(line.grapheme_start(2), None);
}

#[test]
fn line_checked_edits_refuse_missing_graphemes() {
    let mut line = Line::new();
    line.extend("ab");
    assert!(!line.try_truncate_graphemes(5));
    assert!(!line.try_insert_grapheme(3, "x"));
    assert!(!line.try_remove_graphemes(1, 4));
    assert!(line.try_remove_graphemes(0, 1));
    assert_eq!(line.len(), 1);
    assert!(line.try_insert_grapheme(1, "c"));
    assert_eq!(line.len(), 2);
    assert!(line.try_truncate_graphemes(0));
    assert_eq!(line.len(), 0);
}

#[test]
fn line_start_skips_white_space() {
    let mut line = Line::new();
    line.extend(" \t x");
    assert_eq!(line.get_start(), 3);
    line.clear();
    assert_eq!(line.get_start(), 0);
    assert_eq!(line.len(), 4);
}

#[test]
fn line_pool_hands_out_empty_lines() {
    let mut pool = LinePool::new();
    assert_eq!(pool.pop(), "");
    pool.push("used".to_string());
    assert_eq!(pool.pop(), "");
    assert_eq!(pool.pop(), "");
}

#[test]
fn line_indexes_by_grapheme() {
    let mut line = Line::new();
    line.extend("ae\u{301}c");
    assert_eq!(line.grapheme(0), "a");
    assert_eq!(line.grapheme(1), "e\u{301}");
    assert_eq!(line.grapheme(3), "");
    assert_eq!(line.slice(1, 3), "e\u{301}c");
    assert_eq!(line.slice_to(2), "ae\u{301}");
    assert_eq!(line.slice_from(2), "c");
    assert_eq!(line.as_str(), "ae\u{301}c");
}
