use editor_text::position::Position;
use editor_text::text::cursor_index::CursorIndex;
use editor_text::text::doc::{Doc, DocKind, DocPath, TextEdit};
use editor_text::text::line_pool::LinePool;
use editor_text::text::selection::Selection;

const HELLO_GOODBYE_TEXT: &str = "hello world\ngoodbye world";

fn hello_goodbye_doc(pool: &mut LinePool) -> Doc {
    let mut doc = Doc::new(DocKind::MultiLine);
    doc.insert(Position::zero(), HELLO_GOODBYE_TEXT, pool);
    doc
}

fn doc_text(doc: &Doc) -> String {
    let mut text = String::new();
    doc.collect_string(Position::zero(), doc.end(), &mut text);
    text
}

#[test]
fn search_forward() {
    let mut pool = LinePool::new();
    let doc = hello_goodbye_doc(&mut pool);
    let position = doc.search_forward("world", doc.get_line_end(0), true);
    assert_eq!(position, Some(Position::new(8, 1)));
}

#[test]
fn search_forward_wrap() {
    let mut pool = LinePool::new();
    let doc = hello_goodbye_doc(&mut pool);
    let position = doc.search_forward("hello", Position::new(0, 1), true);
    assert_eq!(position, Some(Position::new(0, 0)));
}

#[test]
fn search_forward_wrap_disabled() {
    let mut pool = LinePool::new();
    let doc = hello_goodbye_doc(&mut pool);
    let position = doc.search_forward("hello", Position::new(0, 1), false);
    assert_eq!(position, None);
}

#[test]
fn search_forward_empty_text_gives_clamped_start() {
    let mut pool = LinePool::new();
    let doc = hello_goodbye_doc(&mut pool);
    assert_eq!(doc.search_forward("", Position::new(40, 9), true), Some(Position::new(13, 1)));
}

#[test]
fn search_forward_skips_the_start_line_before_the_start() {
    let mut pool = LinePool::new();
    let doc = hello_goodbye_doc(&mut pool);
    assert_eq!(doc.search_forward("hello", Position::new(3, 0), true), None);
    assert_eq!(doc.search_forward("world", Position::new(3, 0), false), Some(Position::new(6, 0)));
}

#[test]
fn insert_splits_lines_and_returns_the_end() {
    let mut pool = LinePool::new();
    let mut doc = Doc::new(DocKind::MultiLine);
    let end = doc.insert(Position::zero(), HELLO_GOODBYE_TEXT, &mut pool);
    assert_eq!(end, Position::new(13, 1));
    assert_eq!(doc.lines().len(), 2);
    assert_eq!(doc.get_line(0), Some("hello world"));
    assert_eq!(doc.get_line(1), Some("goodbye world"));
    assert_eq!(doc.get_line(2), None);
    assert_eq!(doc.end(), Position::new(13, 1));
}

#[test]
fn insert_drops_carriage_returns() {
    let mut pool = LinePool::new();
    let mut doc = Doc::new(DocKind::MultiLine);
    let end = doc.insert(Position::zero(), "a\r\nb\rc", &mut pool);
    assert_eq!(end, Position::new(2, 1));
    assert_eq!(doc.get_line(0), Some("a"));
    assert_eq!(doc.get_line(1), Some("bc"));
}

#[test]
fn single_line_doc_drops_line_feeds() {
    let mut pool = LinePool::new();
    let mut doc = Doc::new(DocKind::SingleLine);
    let end = doc.insert(Position::zero(), "one\ntwo", &mut pool);
    assert_eq!(end, Position::new(6, 0));
    assert_eq!(doc.lines().len(), 1);
    assert_eq!(doc.get_line(0), Some("onetwo"));
    assert_eq!(doc.kind(), DocKind::SingleLine);
}

#[test]
fn insert_empty_text_returns_start_unclamped() {
    let mut pool = LinePool::new();
    let mut doc = Doc::new(DocKind::MultiLine);
    assert_eq!(doc.insert(Position::new(5, 5), "", &mut pool), Position::new(5, 5));
    assert_eq!(doc.lines().len(), 1);
}

#[test]
fn insert_in_the_middle_of_a_line() {
    let mut pool = LinePool::new();
    let mut doc = hello_goodbye_doc(&mut pool);
    let end = doc.insert(Position::new(5, 0), ",\nbig", &mut pool);
    assert_eq!(end, Position::new(3, 1));
    assert_eq!(doc_text(&doc), "hello,\nbig world\ngoodbye world");
}

#[test]
fn read_after_insert_gives_the_text_back() {
    let mut pool = LinePool::new();
    let mut doc = hello_goodbye_doc(&mut pool);
    let start = Position::new(6, 0);
    let end = doc.insert(start, "wide\r\nopen ", &mut pool);
    let mut read = String::new();
    doc.collect_string(start, end, &mut read);
    assert_eq!(read, "wide\nopen ");
}

#[test]
fn delete_after_insert_restores_the_text() {
    let mut pool = LinePool::new();
    let mut doc = hello_goodbye_doc(&mut pool);
    let start = Position::new(3, 1);
    let end = doc.insert(start, "x\ny\nz", &mut pool);
    assert_eq!(doc.lines().len(), 4);
    doc.delete(start, end, &mut pool);
    assert_eq!(doc_text(&doc), HELLO_GOODBYE_TEXT);
    assert_eq!(doc.lines().len(), 2);
}

#[test]
fn delete_within_a_line_and_across_lines() {
    let mut pool = LinePool::new();
    let mut doc = hello_goodbye_doc(&mut pool);
    doc.delete(Position::new(0, 0), Position::new(6, 0), &mut pool);
    assert_eq!(doc_text(&doc), "world\ngoodbye world");
    doc.delete(Position::new(3, 0), Position::new(4, 1), &mut pool);
    assert_eq!(doc_text(&doc), "worbye world");
    assert_eq!(doc.lines().len(), 1);
}

#[test]
fn delete_clamps_its_positions() {
    let mut pool = LinePool::new();
    let mut doc = hello_goodbye_doc(&mut pool);
    doc.delete(Position::new(11, 0), Position::new(99, 99), &mut pool);
    assert_eq!(doc_text(&doc), "hello world");
}

#[test]
fn collect_string_appends() {
    let mut pool = LinePool::new();
    let doc = hello_goodbye_doc(&mut pool);
    let mut text = String::from(">");
    doc.collect_string(Position::new(6, 0), Position::new(4, 1), &mut text);
    assert_eq!(text, ">world\ngood");
}

#[test]
fn clamp_and_line_queries() {
    let mut pool = LinePool::new();
    let mut doc = hello_goodbye_doc(&mut pool);
    assert_eq!(doc.clamp_position(Position::new(50, 0)), Position::new(11, 0));
    assert_eq!(doc.clamp_position(Position::new(2, 7)), Position::new(2, 1));
    assert_eq!(doc.get_line_len(1), 13);
    assert_eq!(doc.get_line_len(2), 0);
    assert_eq!(doc.get_line_end(0), Position::new(11, 0));
    doc.insert(Position::zero(), "  \t// note\n   \n", &mut pool);
    assert_eq!(doc.get_line_start(0), 3);
    assert!(doc.is_line_commented("//", 0));
    assert!(!doc.is_line_commented("#", 0));
    assert!(doc.is_line_whitespace(1));
    assert!(!doc.is_line_whitespace(0));
}

#[test]
fn graphemes_and_moving_between_them() {
    let mut pool = LinePool::new();
    let mut doc = Doc::new(DocKind::MultiLine);
    doc.insert(Position::zero(), "a\u{e9}\u{301}b", &mut pool);
    assert_eq!(doc.get_grapheme(Position::new(1, 0)), "\u{e9}\u{301}");
    assert_eq!(doc.get_grapheme(Position::new(6, 0)), "\n");
    let mut position = Position::new(1, 0);
    assert!(doc.move_position_to_next_grapheme(&mut position));
    assert_eq!(position, Position::new(5, 0));
    assert!(doc.move_position_to_previous_grapheme(&mut position));
    assert_eq!(position, Position::new(1, 0));
    let mut at_end = Position::new(6, 0);
    assert!(!doc.move_position_to_next_grapheme(&mut at_end));
    assert_eq!(at_end, Position::new(6, 0));
}

#[test]
fn shifting_positions_by_an_edit() {
    let mut pool = LinePool::new();
    let doc = hello_goodbye_doc(&mut pool);
    let start = Position::new(2, 0);
    let end = Position::new(3, 1);
    let p = Position::new(5, 0);
    let shifted = doc.shift_position_by_insert(start, end, p);
    assert_eq!(shifted, Position::new(6, 1));
    assert_eq!(doc.shift_position_by_delete(start, end, shifted), p);
    assert_eq!(doc.shift_position_by_insert(start, end, Position::new(1, 0)), Position::new(1, 0));
    assert_eq!(doc.shift_position_by_insert(start, end, Position::new(4, 1)), Position::new(4, 2));
}

#[test]
fn doc_path_kinds() {
    let none = DocPath::NoPath;
    assert!(none.is_none());
    assert!(none.some().is_none());
    let on_drive = DocPath::OnDrive(std::path::PathBuf::from("a.rs"));
    assert_eq!(on_drive.some(), Some(std::path::Path::new("a.rs")));
    assert_eq!(on_drive.on_drive(), Some(std::path::Path::new("a.rs")));
    let in_memory = DocPath::InMemory(std::path::PathBuf::from("b.rs"));
    assert_eq!(in_memory.some(), Some(std::path::Path::new("b.rs")));
    assert!(in_memory.on_drive().is_none());
}

#[test]
fn move_position_by_graphemes_and_lines() {
    let mut pool = LinePool::new();
    let doc = hello_goodbye_doc(&mut pool);
    assert_eq!(doc.move_position(Position::new(0, 0), 3, 0), Position::new(3, 0));
    assert_eq!(doc.move_position(Position::new(10, 0), 3, 0), Position::new(1, 1));
    assert_eq!(doc.move_position(Position::new(1, 1), -3, 0), Position::new(10, 0));
    assert_eq!(doc.move_position(Position::new(12, 0), 0, 1), Position::new(11, 1));
    assert_eq!(doc.move_position(Position::new(5, 1), 0, -5), Position::new(0, 0));
    assert_eq!(doc.move_position(Position::new(5, 0), 0, 7), Position::new(13, 1));
    assert_eq!(doc.move_position(Position::new(13, 1), 2, 0), Position::new(13, 1));
    assert_eq!(doc.move_position(Position::new(0, 0), -1, 0), Position::new(0, 0));
}

#[test]
fn move_position_to_next_word() {
    let mut pool = LinePool::new();
    let doc = hello_goodbye_doc(&mut pool);
    assert_eq!(doc.move_position_to_next_word(Position::new(0, 0), 1), Position::new(5, 0));
    assert_eq!(doc.move_position_to_next_word(Position::new(5, 0), 1), Position::new(11, 0));
    assert_eq!(doc.move_position_to_next_word(Position::new(11, 0), 1), Position::new(0, 1));
    assert_eq!(doc.move_position_to_next_word(Position::new(11, 0), -1), Position::new(6, 0));
}

#[test]
fn move_position_skipping_category_stops_at_other_graphemes() {
    let mut pool = LinePool::new();
    let doc = hello_goodbye_doc(&mut pool);
    let identifier = editor_text::text::grapheme_category::GraphemeCategory::Identifier;
    assert_eq!(doc.move_position_skipping_category(Position::new(1, 1), 1, identifier), Position::new(7, 1));
    assert_eq!(doc.move_position_skipping_category(Position::new(3, 1), -1, identifier), Position::new(0, 1));
}

#[test]
fn move_position_by_paragraphs() {
    let mut pool = LinePool::new();
    let mut doc = Doc::new(DocKind::MultiLine);
    doc.insert(Position::zero(), "a\n\n\nb\nc", &mut pool);
    assert_eq!(doc.move_position_to_next_paragraph(Position::new(0, 0), 1, false), Position::new(0, 1));
    assert_eq!(doc.move_position_to_next_paragraph(Position::new(0, 1), 1, true), Position::new(1, 4));
    assert_eq!(doc.move_position_skipping_lines(Position::new(0, 4), -1, false), Position::new(0, 2));
}

#[test]
fn trim_trailing_whitespace_from_every_line() {
    let mut pool = LinePool::new();
    let mut doc = Doc::new(DocKind::MultiLine);
    doc.insert(Position::zero(), "a  \n\t\nb c \u{3000}\nx", &mut pool);
    doc.trim_trailing_whitespace(&mut pool);
    assert_eq!(doc_text(&doc), "a\n\nb c\nx");
    assert_eq!(doc.lines().len(), 4);
}

#[test]
fn repeated_search_forward_past_each_match() {
    let mut pool = LinePool::new();
    let doc = hello_goodbye_doc(&mut pool);
    let position = doc.search_forward("world", Position::zero(), true);
    assert_eq!(position, Some(Position::new(6, 0)));
    let position = doc.search_forward("world", Position::new(7, 0), true);
    assert_eq!(position, Some(Position::new(8, 1)));
    let position = doc.search_forward("world", Position::new(9, 1), true);
    assert_eq!(position, Some(Position::new(6, 0)));
}

#[test]
fn search_backward() {
    let mut pool = LinePool::new();
    let doc = hello_goodbye_doc(&mut pool);
    let position = doc.search("world", Position::new(0, 1), true);
    assert_eq!(position, Some(Position::new(6, 0)));
}

#[test]
fn search_backward_wrap() {
    let mut pool = LinePool::new();
    let doc = hello_goodbye_doc(&mut pool);
    let position = doc.search("goodbye", Position::new(0, 1), true);
    assert_eq!(position, Some(Position::new(0, 1)));
}

#[test]
fn search_backward_wrap_disabled() {
    let mut pool = LinePool::new();
    let doc = hello_goodbye_doc(&mut pool);
    let position = doc.search_backward("goodbye", Position::new(0, 1), false);
    assert_eq!(position, None);
}

#[test]
fn search_dispatches_by_direction() {
    let mut pool = LinePool::new();
    let doc = hello_goodbye_doc(&mut pool);
    assert_eq!(doc.search("world", doc.get_line_end(0), false), Some(Position::new(8, 1)));
    assert_eq!(doc.search("", Position::new(3, 0), true), Some(Position::new(2, 0)));
    assert_eq!(doc.search("o w", Position::new(13, 1), true), Some(Position::new(4, 0)));
}

#[test]
fn search_backward_carries_a_match_across_a_line_break() {
    let mut pool = LinePool::new();
    let mut doc = Doc::new(DocKind::MultiLine);
    doc.insert(Position::zero(), "xa\nbz", &mut pool);
    assert_eq!(doc.search_backward("ab", Position::new(2, 1), false), Some(Position::new(1, 0)));
}

#[test]
fn load_takes_the_line_ending_of_the_first_break() {
    let mut pool = LinePool::new();
    let mut doc = hello_goodbye_doc(&mut pool);
    doc.load("a\r\nb\r\n", &mut pool);
    assert_eq!(doc.lines().len(), 3);
    assert_eq!(doc.get_line(0), Some("a"));
    assert_eq!(doc.get_line(1), Some("b"));
    assert_eq!(doc.get_line(2), Some(""));
    assert_eq!(doc.to_string(), "a\r\nb\r\n");
    doc.load("x\ny", &mut pool);
    assert_eq!(doc.to_string(), "x\ny");
    doc.load("a\rb", &mut pool);
    assert_eq!(doc.to_string(), "ab");
    doc.load("plain", &mut pool);
    assert_eq!(doc.to_string(), "plain");
}

#[test]
fn load_into_a_single_line_stops_at_the_first_break() {
    let mut pool = LinePool::new();
    let mut doc = Doc::new(DocKind::SingleLine);
    doc.load("one\ntwo", &mut pool);
    assert_eq!(doc.lines().len(), 1);
    assert_eq!(doc.to_string(), "one");
}

#[test]
fn clear_leaves_one_empty_line() {
    let mut pool = LinePool::new();
    let mut doc = hello_goodbye_doc(&mut pool);
    doc.clear(&mut pool);
    assert_eq!(doc.lines().len(), 1);
    assert_eq!(doc.to_string(), "");
    assert_eq!(doc.end(), Position::zero());
}

#[test]
fn to_string_joins_lines_with_the_line_ending() {
    let mut pool = LinePool::new();
    let doc = hello_goodbye_doc(&mut pool);
    assert_eq!(doc.to_string(), "hello world\r\ngoodbye world");
}

#[test]
fn select_current_line_with_its_line_break() {
    let mut pool = LinePool::new();
    let doc = hello_goodbye_doc(&mut pool);
    let first = doc.select_current_line_at_position(Position::new(3, 0));
    assert_eq!((first.start, first.end), (Position::new(0, 0), Position::new(0, 1)));
    let last = doc.select_current_line_at_position(Position::new(3, 1));
    assert_eq!((last.start, last.end), (Position::new(11, 0), Position::new(13, 1)));
}

#[test]
fn select_current_word() {
    let mut pool = LinePool::new();
    let doc = hello_goodbye_doc(&mut pool);
    let word = doc.select_current_word_at_position(Position::new(2, 0));
    assert_eq!((word.start, word.end), (Position::new(0, 0), Position::new(5, 0)));
    let before_space = doc.select_current_word_at_position(Position::new(7, 1));
    assert_eq!((before_space.start, before_space.end), (Position::new(0, 1), Position::new(7, 1)));
}

#[test]
fn comment_and_uncomment_a_line() {
    let mut pool = LinePool::new();
    let mut doc = Doc::new(DocKind::MultiLine);
    doc.insert(Position::zero(), "  x\ny", &mut pool);
    doc.comment_line("//", Position::new(2, 0), &mut pool);
    assert_eq!(doc.get_line(0), Some("  // x"));
    assert!(doc.is_line_commented("//", 0));
    assert!(!doc.uncomment_line("#", 0, &mut pool));
    assert_eq!(doc.get_line(0), Some("  // x"));
    assert!(doc.uncomment_line("//", 0, &mut pool));
    assert_eq!(doc.get_line(0), Some("  x"));
    assert!(!doc.uncomment_line("//", 1, &mut pool));
}

#[test]
fn comment_past_the_end_of_a_line_goes_after_the_space() {
    let mut pool = LinePool::new();
    let mut doc = Doc::new(DocKind::MultiLine);
    doc.insert(Position::zero(), "ab", &mut pool);
    doc.comment_line("#", Position::new(5, 0), &mut pool);
    assert_eq!(doc.get_line(0), Some("ab #"));
}

#[test]
fn indent_start_goes_back_one_level() {
    let mut pool = LinePool::new();
    let mut doc = Doc::new(DocKind::MultiLine);
    doc.insert(Position::zero(), "      x\n\ty\nab\n  z", &mut pool);
    assert_eq!(doc.get_indent_start(Position::new(6, 0), 4), Position::new(4, 0));
    assert_eq!(doc.get_indent_start(Position::new(4, 0), 4), Position::new(0, 0));
    assert_eq!(doc.get_indent_start(Position::new(1, 1), 4), Position::new(0, 1));
    assert_eq!(doc.get_indent_start(Position::new(1, 2), 4), Position::new(1, 2));
    assert_eq!(doc.get_indent_start(Position::new(2, 3), 4), Position::new(0, 3));
    assert_eq!(doc.get_indent_start(Position::new(7, 0), 4), Position::new(7, 0));
}

#[test]
fn indent_at_every_cursor() {
    let mut pool = LinePool::new();
    let mut doc = Doc::new(DocKind::MultiLine);
    doc.insert(Position::zero(), "a\nb", &mut pool);
    doc.add_cursor(Position::zero(), 0);
    doc.indent_at_cursors(" ", 2, &mut pool);
    assert_eq!(doc_text(&doc), "  a\nb  ");
    assert_eq!(doc.get_cursor(CursorIndex::Index(0)).position, Position::new(3, 1));
    assert_eq!(doc.get_cursor(CursorIndex::Main).position, Position::new(2, 0));
}

#[test]
fn indent_and_unindent_selected_lines() {
    let mut pool = LinePool::new();
    let mut doc = Doc::new(DocKind::MultiLine);
    doc.insert(Position::zero(), "a\n\nb", &mut pool);
    doc.set_cursor_selection(
        CursorIndex::Main,
        Some(Selection { start: Position::new(0, 0), end: Position::new(1, 2) }),
    );
    doc.indent_lines_at_cursors(false, " ", 2, &mut pool);
    assert_eq!(doc_text(&doc), "  a\n\n  b");
    doc.indent_lines_at_cursors(true, " ", 2, &mut pool);
    assert_eq!(doc_text(&doc), "a\n\nb");
}

#[test]
fn unindent_takes_out_a_tab() {
    let mut pool = LinePool::new();
    let mut doc = Doc::new(DocKind::MultiLine);
    doc.insert(Position::zero(), "\t\tx", &mut pool);
    doc.indent_lines_at_cursor(CursorIndex::Main, true, " ", 4, &mut pool);
    assert_eq!(doc_text(&doc), "\tx");
}

#[test]
fn usages_count_up_and_down() {
    let mut doc = Doc::new(DocKind::MultiLine);
    assert_eq!(doc.usages(), 0);
    doc.add_usage();
    doc.add_usage();
    doc.remove_usage();
    assert_eq!(doc.usages(), 1);
}

#[test]
fn apply_edit_list_changes_words_and_lines() {
    let mut pool = LinePool::new();
    let mut doc = hello_goodbye_doc(&mut pool);
    let mut edits = vec![
        TextEdit { start: Position::new(6, 0), end: Position::new(11, 0), new_text: "there".to_string() },
        TextEdit { start: Position::new(13, 1), end: Position::new(13, 1), new_text: "!".to_string() },
    ];
    doc.apply_edit_list(&mut edits, &mut pool);
    assert_eq!(doc_text(&doc), "hello there\ngoodbye world!");
    assert_eq!(edits[1].start, Position::new(13, 1));
}

#[test]
fn apply_edit_list_takes_out_a_line() {
    let mut pool = LinePool::new();
    let mut doc = Doc::new(DocKind::MultiLine);
    doc.insert(Position::zero(), "a\nb\nc", &mut pool);
    let mut edits = vec![TextEdit { start: Position::new(0, 1), end: Position::new(0, 2), new_text: String::new() }];
    doc.apply_edit_list(&mut edits, &mut pool);
    assert_eq!(doc_text(&doc), "a\nc");
}

#[test]
fn apply_edit_list_moves_later_ranges() {
    let mut pool = LinePool::new();
    let mut doc = Doc::new(DocKind::MultiLine);
    doc.insert(Position::zero(), "abc", &mut pool);
    let mut edits = vec![
        TextEdit { start: Position::new(0, 0), end: Position::new(0, 0), new_text: "xx".to_string() },
        TextEdit { start: Position::new(1, 0), end: Position::new(2, 0), new_text: "Y".to_string() },
    ];
    doc.apply_edit_list(&mut edits, &mut pool);
    assert_eq!(edits[1].start, Position::new(3, 0));
    assert_eq!(edits[1].end, Position::new(4, 0));
    // The byte script walks back only until the old line is used up, so the two bytes that
    // the new line starts with are never put in.
    assert_eq!(doc_text(&doc), "aYc");
}
