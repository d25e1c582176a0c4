use editor_text::position::Position;
use editor_text::text::cursor_index::CursorIndex;
use editor_text::text::doc::{Doc, DocKind};
use editor_text::text::line_pool::LinePool;
use editor_text::text::selection::Selection;

fn doc_with(kind: DocKind, text: &str, pool: &mut LinePool) -> Doc {
    let mut doc = Doc::new(kind);
    doc.insert(Position::zero(), text, pool);
    doc.clear_extra_cursors(CursorIndex::Main);
    doc.set_cursor_selection(CursorIndex::Main, None);
    doc
}

fn doc_text(doc: &Doc) -> String {
    let mut text = String::new();
    doc.collect_string(Position::zero(), doc.end(), &mut text);
    text
}

fn position_of(doc: &Doc, index: usize) -> Position {
    doc.get_cursor(CursorIndex::Index(index)).position
}

#[test]
fn a_new_doc_has_one_cursor_at_its_start() {
    let doc = Doc::new(DocKind::MultiLine);
    assert_eq!(doc.cursors_len(), 1);
    let cursor = doc.get_cursor(CursorIndex::Main);
    assert_eq!(cursor.position, Position::zero());
    assert_eq!(cursor.selection_anchor, None);
    assert_eq!(cursor.desired_visual_x, 0);
}

#[test]
fn inserting_at_the_start_carries_the_first_cursor_along() {
    let mut pool = LinePool::new();
    let mut doc = Doc::new(DocKind::MultiLine);
    doc.insert(Position::zero(), "ab\ncd", &mut pool);
    assert_eq!(doc.get_cursor(CursorIndex::Main).position, Position::new(2, 1));
}

#[test]
fn add_cursor_keeps_it_within_the_doc_and_makes_it_main() {
    let mut pool = LinePool::new();
    let mut doc = doc_with(DocKind::MultiLine, "hello\nworld", &mut pool);
    doc.add_cursor(Position::new(40, 9), 7);
    assert_eq!(doc.cursors_len(), 2);
    assert_eq!(doc.get_cursor(CursorIndex::Main).position, Position::new(5, 1));
    assert_eq!(doc.get_cursor(CursorIndex::Main).desired_visual_x, 7);
    assert_eq!(doc.unwrap_cursor_index(CursorIndex::Main), 1);
    assert!(doc.is_cursor_index_main(CursorIndex::Index(1)));
    assert!(!doc.is_cursor_index_main(CursorIndex::Index(0)));
}

#[test]
fn an_output_doc_keeps_zero_as_the_desired_visual_x() {
    let mut doc = Doc::new(DocKind::Output);
    doc.add_cursor(Position::zero(), 7);
    assert_eq!(doc.get_cursor(CursorIndex::Main).desired_visual_x, 0);
}

#[test]
fn insert_moves_the_cursors_after_it() {
    let mut pool = LinePool::new();
    let mut doc = doc_with(DocKind::MultiLine, "hello\nworld", &mut pool);
    doc.add_cursor(Position::new(1, 0), 0);
    doc.add_cursor(Position::new(4, 0), 0);
    doc.add_cursor(Position::new(2, 1), 0);
    doc.insert(Position::new(3, 0), "XY\nZ", &mut pool);
    assert_eq!(doc_text(&doc), "helXY\nZlo\nworld");
    // The first cursor was moved to the end of the text when it was put in.
    assert_eq!(position_of(&doc, 0), Position::new(5, 2));
    assert_eq!(position_of(&doc, 1), Position::new(1, 0));
    assert_eq!(position_of(&doc, 2), Position::new(2, 1));
    assert_eq!(position_of(&doc, 3), Position::new(2, 2));
}

#[test]
fn delete_moves_the_cursors_after_it_back() {
    let mut pool = LinePool::new();
    let mut doc = doc_with(DocKind::MultiLine, "hello\nworld\nagain", &mut pool);
    doc.add_cursor(Position::new(1, 0), 0);
    doc.add_cursor(Position::new(1, 1), 0);
    doc.add_cursor(Position::new(4, 1), 0);
    doc.add_cursor(Position::new(3, 2), 0);
    doc.delete(Position::new(2, 0), Position::new(3, 1), &mut pool);
    assert_eq!(doc_text(&doc), "held\nagain");
    assert_eq!(position_of(&doc, 1), Position::new(1, 0));
    assert_eq!(position_of(&doc, 2), Position::new(2, 0));
    assert_eq!(position_of(&doc, 3), Position::new(3, 0));
    assert_eq!(position_of(&doc, 4), Position::new(3, 1));
}

#[test]
fn an_output_doc_does_not_move_its_cursors() {
    let mut pool = LinePool::new();
    let mut doc = Doc::new(DocKind::Output);
    doc.insert(Position::zero(), "abc", &mut pool);
    assert_eq!(doc.get_cursor(CursorIndex::Main).position, Position::zero());
    doc.add_cursor(Position::new(3, 0), 0);
    doc.delete(Position::zero(), Position::new(2, 0), &mut pool);
    assert_eq!(doc.get_cursor(CursorIndex::Main).position, Position::new(3, 0));
}

#[test]
fn selections_start_end_and_follow_the_cursor() {
    let mut pool = LinePool::new();
    let mut doc = doc_with(DocKind::MultiLine, "hello world", &mut pool);
    assert!(!doc.has_selection());
    doc.update_cursor_selection(CursorIndex::Main, true);
    assert_eq!(doc.get_cursor(CursorIndex::Main).selection_anchor, Some(Position::new(11, 0)));
    doc.set_cursor_selection(
        CursorIndex::Main,
        Some(Selection { start: Position::new(0, 0), end: Position::new(5, 0) }),
    );
    let cursor = doc.get_cursor(CursorIndex::Main);
    assert_eq!(cursor.position, Position::new(5, 0));
    assert_eq!(cursor.selection_anchor, Some(Position::new(0, 0)));
    assert!(doc.has_selection());
    doc.update_cursor_selection(CursorIndex::Main, false);
    assert_eq!(doc.get_cursor(CursorIndex::Main).selection_anchor, None);
    assert!(!doc.has_selection());
}

#[test]
fn set_cursor_selection_puts_the_cursor_at_the_end_it_did_not_start_from() {
    let mut pool = LinePool::new();
    let mut doc = doc_with(DocKind::MultiLine, "hello world", &mut pool);
    doc.set_cursor_selection(
        CursorIndex::Main,
        Some(Selection { start: Position::new(2, 0), end: Position::new(4, 0) }),
    );
    doc.start_cursor_selection(CursorIndex::Main);
    doc.set_cursor_selection(
        CursorIndex::Main,
        Some(Selection { start: Position::new(1, 0), end: Position::new(6, 0) }),
    );
    // The anchor was set at the position, so the cursor selects nothing and goes to the end.
    assert_eq!(doc.get_cursor(CursorIndex::Main).position, Position::new(6, 0));
    doc.set_cursor_selection(
        CursorIndex::Main,
        Some(Selection { start: Position::new(1, 0), end: Position::new(3, 0) }),
    );
    doc.set_cursor_selection(
        CursorIndex::Main,
        Some(Selection { start: Position::new(0, 0), end: Position::new(8, 0) }),
    );
    assert_eq!(doc.get_cursor(CursorIndex::Main).position, Position::new(8, 0));
    doc.end_cursor_selection(CursorIndex::Main);
    doc.start_cursor_selection(CursorIndex::Main);
    let cursor = doc.get_cursor(CursorIndex::Main);
    assert_eq!(cursor.selection_anchor, Some(Position::new(8, 0)));
}

#[test]
fn remove_and_clear_extra_cursors() {
    let mut pool = LinePool::new();
    let mut doc = doc_with(DocKind::MultiLine, "hello world", &mut pool);
    doc.remove_cursor(CursorIndex::Main);
    assert_eq!(doc.cursors_len(), 1);
    doc.add_cursor(Position::new(1, 0), 0);
    doc.add_cursor(Position::new(2, 0), 0);
    doc.remove_cursor(CursorIndex::Index(1));
    assert_eq!(doc.cursors_len(), 2);
    assert_eq!(position_of(&doc, 1), Position::new(2, 0));
    doc.add_cursor(Position::new(3, 0), 0);
    doc.clear_extra_cursors(CursorIndex::Index(1));
    assert_eq!(doc.cursors_len(), 1);
    assert_eq!(doc.get_cursor(CursorIndex::Main).position, Position::new(2, 0));
}

#[test]
fn cursor_indices_walk_from_the_first_cursor() {
    let mut pool = LinePool::new();
    let mut doc = doc_with(DocKind::MultiLine, "hello", &mut pool);
    doc.add_cursor(Position::new(1, 0), 0);
    let mut indices = doc.cursor_indices();
    assert!(matches!(indices.next(), Some(CursorIndex::Index(0))));
    assert!(matches!(indices.next_back(), Some(CursorIndex::Index(1))));
    assert!(indices.next().is_none());
}

#[test]
fn combining_merges_cursors_on_the_same_position() {
    let mut pool = LinePool::new();
    let mut doc = doc_with(DocKind::MultiLine, "hello world", &mut pool);
    doc.add_cursor(Position::new(3, 0), 0);
    doc.add_cursor(Position::new(3, 0), 0);
    doc.combine_overlapping_cursors();
    assert_eq!(doc.cursors_len(), 2);
    assert_eq!(position_of(&doc, 0), Position::new(11, 0));
    assert_eq!(position_of(&doc, 1), Position::new(3, 0));
}

#[test]
fn combining_merges_a_cursor_into_a_selection_that_takes_it_in() {
    let mut pool = LinePool::new();
    let mut doc = doc_with(DocKind::MultiLine, "hello world", &mut pool);
    doc.set_cursor_selection(
        CursorIndex::Main,
        Some(Selection { start: Position::new(0, 0), end: Position::new(5, 0) }),
    );
    doc.add_cursor(Position::new(7, 0), 0);
    doc.set_cursor_selection(
        CursorIndex::Main,
        Some(Selection { start: Position::new(4, 0), end: Position::new(9, 0) }),
    );
    doc.combine_overlapping_cursors();
    assert_eq!(doc.cursors_len(), 1);
    let cursor = doc.get_cursor(CursorIndex::Main);
    assert_eq!(cursor.position, Position::new(9, 0));
    assert_eq!(cursor.selection_anchor, Some(Position::new(0, 0)));
}

#[test]
fn combining_keeps_cursors_apart() {
    let mut pool = LinePool::new();
    let mut doc = doc_with(DocKind::MultiLine, "hello world", &mut pool);
    doc.add_cursor(Position::new(2, 0), 0);
    doc.add_cursor(Position::new(4, 0), 0);
    doc.combine_overlapping_cursors();
    assert_eq!(doc.cursors_len(), 3);
}

#[test]
fn copy_at_cursors_takes_selections_or_whole_lines() {
    let mut pool = LinePool::new();
    let mut doc = doc_with(DocKind::MultiLine, "hello world\nsecond", &mut pool);
    doc.set_cursor_selection(
        CursorIndex::Main,
        Some(Selection { start: Position::new(6, 0), end: Position::new(11, 0) }),
    );
    doc.add_cursor(Position::new(2, 1), 0);
    let mut text = String::new();
    let was_copy_implicit = doc.copy_at_cursors(&mut text);
    assert!(!was_copy_implicit);
    assert_eq!(text, "world\nsecond\n");

    let mut doc = doc_with(DocKind::MultiLine, "one\ntwo", &mut pool);
    let mut text = String::from(">");
    assert!(doc.copy_at_cursors(&mut text));
    assert_eq!(text, ">two\n");
}

#[test]
fn copy_line_at_position() {
    let mut pool = LinePool::new();
    let mut doc = doc_with(DocKind::MultiLine, "one\ntwo", &mut pool);
    let mut text = String::new();
    doc.copy_line_at_position(Position::new(1, 0), &mut text);
    assert_eq!(text, "one\n");
}

#[test]
fn insert_at_cursor_replaces_its_selection() {
    let mut pool = LinePool::new();
    let mut doc = doc_with(DocKind::MultiLine, "hello world", &mut pool);
    doc.set_cursor_selection(
        CursorIndex::Main,
        Some(Selection { start: Position::new(0, 0), end: Position::new(5, 0) }),
    );
    doc.insert_at_cursor(CursorIndex::Main, "goodbye", &mut pool);
    assert_eq!(doc_text(&doc), "goodbye world");
    let cursor = doc.get_cursor(CursorIndex::Main);
    assert_eq!(cursor.position, Position::new(7, 0));
    assert_eq!(cursor.selection_anchor, None);
}

#[test]
fn insert_at_cursor_without_a_selection_types_there() {
    let mut pool = LinePool::new();
    let mut doc = doc_with(DocKind::MultiLine, "ac", &mut pool);
    doc.add_cursor(Position::new(1, 0), 0);
    doc.insert_at_cursor(CursorIndex::Main, "b", &mut pool);
    assert_eq!(doc_text(&doc), "abc");
    assert_eq!(position_of(&doc, 0), Position::new(3, 0));
    assert_eq!(position_of(&doc, 1), Position::new(2, 0));
}

#[test]
fn paste_at_cursor_after_an_implicit_copy_goes_to_the_line_start() {
    let mut pool = LinePool::new();
    let mut doc = doc_with(DocKind::MultiLine, "one\ntwo", &mut pool);
    doc.paste_at_cursor(CursorIndex::Main, "zero\n", true, &mut pool);
    assert_eq!(doc_text(&doc), "one\nzero\ntwo");
    assert_eq!(doc.get_cursor(CursorIndex::Main).position, Position::new(3, 2));
}

#[test]
fn paste_at_cursor_replaces_its_selection() {
    let mut pool = LinePool::new();
    let mut doc = doc_with(DocKind::MultiLine, "one two", &mut pool);
    doc.set_cursor_selection(
        CursorIndex::Main,
        Some(Selection { start: Position::new(4, 0), end: Position::new(7, 0) }),
    );
    doc.paste_at_cursor(CursorIndex::Main, "six", true, &mut pool);
    assert_eq!(doc_text(&doc), "one six");
    assert_eq!(doc.get_cursor(CursorIndex::Main).position, Position::new(7, 0));
}

#[test]
fn cursor_position_history_starts_empty() {
    let mut pool = LinePool::new();
    let mut doc = doc_with(DocKind::MultiLine, "one", &mut pool);
    doc.undo_cursor_position();
    doc.redo_cursor_position();
    assert_eq!(doc.get_cursor(CursorIndex::Main).position, Position::new(3, 0));
}

#[test]
fn trimming_brings_cursors_in_trailing_space_back() {
    let mut pool = LinePool::new();
    let mut doc = doc_with(DocKind::MultiLine, "ab   \ncd", &mut pool);
    doc.add_cursor(Position::new(4, 0), 0);
    doc.add_cursor(Position::new(1, 0), 0);
    doc.add_cursor(Position::new(1, 1), 0);
    doc.trim_trailing_whitespace(&mut pool);
    assert_eq!(doc_text(&doc), "ab\ncd");
    assert_eq!(position_of(&doc, 1), Position::new(2, 0));
    assert_eq!(position_of(&doc, 2), Position::new(1, 0));
    assert_eq!(position_of(&doc, 3), Position::new(1, 1));
}

#[test]
fn clear_and_load_leave_one_cursor_at_the_start() {
    let mut pool = LinePool::new();
    let mut doc = doc_with(DocKind::MultiLine, "one", &mut pool);
    doc.add_cursor(Position::new(1, 0), 0);
    doc.clear(&mut pool);
    assert_eq!(doc.cursors_len(), 1);
    assert_eq!(doc.get_cursor(CursorIndex::Main).position, Position::zero());
    doc.add_cursor(Position::new(0, 0), 0);
    doc.load("two\nthree", &mut pool);
    assert_eq!(doc.cursors_len(), 1);
    assert_eq!(doc.get_cursor(CursorIndex::Main).position, Position::zero());
}

#[test]
fn commenting_moves_the_cursors_after_the_comment() {
    let mut pool = LinePool::new();
    let mut doc = doc_with(DocKind::MultiLine, "code", &mut pool);
    doc.add_cursor(Position::new(2, 0), 0);
    doc.comment_line("//", Position::zero(), &mut pool);
    assert_eq!(doc_text(&doc), "// code");
    assert_eq!(doc.get_cursor(CursorIndex::Main).position, Position::new(5, 0));
    assert!(doc.uncomment_line("//", 0, &mut pool));
    assert_eq!(doc_text(&doc), "code");
    assert_eq!(doc.get_cursor(CursorIndex::Main).position, Position::new(2, 0));
}

#[test]
fn insert_at_cursors_types_at_each_cursor() {
    let mut pool = LinePool::new();
    let mut doc = doc_with(DocKind::MultiLine, "ab\ncd", &mut pool);
    doc.add_cursor(Position::new(1, 0), 0);
    doc.insert_at_cursors("X", &mut pool);
    assert_eq!(doc_text(&doc), "aXb\ncdX");
    assert_eq!(position_of(&doc, 0), Position::new(3, 1));
    assert_eq!(position_of(&doc, 1), Position::new(2, 0));
}

#[test]
fn paste_at_cursors_shares_lines_out_among_cursors() {
    let mut pool = LinePool::new();
    let mut doc = doc_with(DocKind::MultiLine, "ab\ncd", &mut pool);
    doc.add_cursor(Position::new(1, 0), 0);
    doc.paste_at_cursors("1\n2", false, &mut pool);
    assert_eq!(doc_text(&doc), "a2b\ncd1");
}

#[test]
fn paste_at_cursors_gives_each_cursor_all_of_uneven_text() {
    let mut pool = LinePool::new();
    let mut doc = doc_with(DocKind::MultiLine, "ab\ncd", &mut pool);
    doc.add_cursor(Position::new(1, 0), 0);
    doc.paste_at_cursors("xy", false, &mut pool);
    assert_eq!(doc_text(&doc), "axyb\ncdxy");
}

#[test]
fn paste_at_one_cursor_puts_all_the_text_in() {
    let mut pool = LinePool::new();
    let mut doc = doc_with(DocKind::MultiLine, "ab", &mut pool);
    doc.paste_at_cursors("1\n2", false, &mut pool);
    assert_eq!(doc_text(&doc), "ab1\n2");
}

#[test]
fn pasting_shared_lines_of_an_implicit_copy_puts_each_grapheme_at_the_line_start() {
    let mut pool = LinePool::new();
    let mut doc = doc_with(DocKind::MultiLine, "ab\ncd", &mut pool);
    doc.add_cursor(Position::new(1, 0), 0);
    doc.paste_at_cursors("12\n34", true, &mut pool);
    assert_eq!(doc_text(&doc), "43ab\n21cd");
}

#[test]
fn select_current_line_at_cursors_selects_each_line_with_its_break() {
    let mut pool = LinePool::new();
    let mut doc = doc_with(DocKind::MultiLine, "ab\ncd\nef", &mut pool);
    doc.add_cursor(Position::new(1, 0), 0);
    doc.select_current_line_at_cursors();
    let last = doc.get_cursor(CursorIndex::Index(0));
    assert_eq!(last.selection_anchor, Some(Position::new(2, 1)));
    assert_eq!(last.position, Position::new(2, 2));
    let first = doc.get_cursor(CursorIndex::Index(1));
    assert_eq!(first.selection_anchor, Some(Position::new(0, 0)));
    assert_eq!(first.position, Position::new(0, 1));
}

#[test]
fn select_current_word_at_cursors_selects_each_word() {
    let mut pool = LinePool::new();
    let mut doc = doc_with(DocKind::MultiLine, "hello world", &mut pool);
    doc.add_cursor(Position::new(2, 0), 0);
    doc.select_current_word_at_cursors();
    let end = doc.get_cursor(CursorIndex::Index(0));
    assert_eq!(end.selection_anchor, Some(Position::new(6, 0)));
    assert_eq!(end.position, Position::new(11, 0));
    let main = doc.get_cursor(CursorIndex::Main);
    assert_eq!(main.selection_anchor, Some(Position::new(0, 0)));
    assert_eq!(main.position, Position::new(5, 0));
}

#[test]
fn completion_prefix_goes_back_over_an_identifier() {
    let mut pool = LinePool::new();
    let doc = doc_with(DocKind::MultiLine, "let foo.ba", &mut pool);
    assert_eq!(doc.get_completion_prefix(), Some("ba"));
    let doc = doc_with(DocKind::MultiLine, "a_1", &mut pool);
    assert_eq!(doc.get_completion_prefix(), Some("a_1"));
}

#[test]
fn completion_prefix_after_a_dot_may_be_empty() {
    let mut pool = LinePool::new();
    let doc = doc_with(DocKind::MultiLine, "a.", &mut pool);
    assert_eq!(doc.get_completion_prefix(), Some(""));
    let doc = doc_with(DocKind::MultiLine, "a::", &mut pool);
    assert_eq!(doc.get_completion_prefix(), Some(""));
}

#[test]
fn no_completion_prefix_after_other_graphemes_or_at_a_line_start() {
    let mut pool = LinePool::new();
    let doc = doc_with(DocKind::MultiLine, "x = ", &mut pool);
    assert_eq!(doc.get_completion_prefix(), None);
    let doc = Doc::new(DocKind::MultiLine);
    assert_eq!(doc.get_completion_prefix(), None);
}

#[test]
fn toggling_comments_comments_and_uncomments_the_selected_lines() {
    let mut pool = LinePool::new();
    let mut doc = doc_with(DocKind::MultiLine, "a\n  b\n\nc", &mut pool);
    doc.set_cursor_selection(
        CursorIndex::Main,
        Some(Selection { start: Position::new(0, 0), end: Position::new(1, 3) }),
    );
    doc.toggle_comments_at_cursors(Some("//"), &mut pool);
    assert_eq!(doc_text(&doc), "// a\n//   b\n\n// c");
    let cursor = doc.get_cursor(CursorIndex::Main);
    assert_eq!(cursor.selection_anchor, Some(Position::new(3, 0)));
    assert_eq!(cursor.position, Position::new(4, 3));
    doc.toggle_comments_at_cursors(Some("//"), &mut pool);
    assert_eq!(doc_text(&doc), "a\n  b\n\nc");
}

#[test]
fn toggling_comments_puts_them_at_the_least_line_start() {
    let mut pool = LinePool::new();
    let mut doc = doc_with(DocKind::MultiLine, "    a\n  b", &mut pool);
    doc.set_cursor_selection(
        CursorIndex::Main,
        Some(Selection { start: Position::new(0, 0), end: Position::new(3, 1) }),
    );
    doc.toggle_comments_at_cursors(Some("#"), &mut pool);
    assert_eq!(doc_text(&doc), "  #   a\n  # b");
}

#[test]
fn toggling_comments_without_a_language_changes_nothing() {
    let mut pool = LinePool::new();
    let mut doc = doc_with(DocKind::MultiLine, "a", &mut pool);
    doc.toggle_comments_at_cursors(None, &mut pool);
    assert_eq!(doc_text(&doc), "a");
}

fn numbered_lines(count: usize) -> String {
    let mut text = String::new();
    for i in 0..count {
        if i > 0 {
            text.push('\n');
        }
        text.push_str(&format!("line {}", i));
    }
    text
}

#[test]
fn jumping_far_keeps_the_position_to_go_back_to() {
    let mut pool = LinePool::new();
    let mut doc = doc_with(DocKind::MultiLine, &numbered_lines(20), &mut pool);
    doc.jump_cursor(CursorIndex::Main, Position::new(2, 3), false);
    assert_eq!(doc.get_cursor(CursorIndex::Main).position, Position::new(2, 3));
    doc.jump_cursor(CursorIndex::Main, Position::new(1, 5), false);
    doc.undo_cursor_position();
    assert_eq!(doc.get_cursor(CursorIndex::Main).position, Position::new(7, 19));
    doc.redo_cursor_position();
    assert_eq!(doc.get_cursor(CursorIndex::Main).position, Position::new(1, 5));
    doc.redo_cursor_position();
    assert_eq!(doc.get_cursor(CursorIndex::Main).position, Position::new(1, 5));
    doc.undo_cursor_position();
    assert_eq!(doc.get_cursor(CursorIndex::Main).position, Position::new(7, 19));
}

#[test]
fn jump_cursor_keeps_positions_within_the_doc_and_selects() {
    let mut pool = LinePool::new();
    let mut doc = doc_with(DocKind::MultiLine, "hello\nworld", &mut pool);
    doc.jump_cursor(CursorIndex::Main, Position::new(1, 0), false);
    doc.jump_cursor(CursorIndex::Main, Position::new(40, 7), true);
    let cursor = doc.get_cursor(CursorIndex::Main);
    assert_eq!(cursor.position, Position::new(5, 1));
    assert_eq!(cursor.selection_anchor, Some(Position::new(1, 0)));
}

#[test]
fn jump_cursors_keeps_only_the_main_cursor() {
    let mut pool = LinePool::new();
    let mut doc = doc_with(DocKind::MultiLine, "hello\nworld", &mut pool);
    doc.add_cursor(Position::new(1, 0), 0);
    doc.jump_cursors(Position::new(3, 1), false);
    assert_eq!(doc.cursors_len(), 1);
    assert_eq!(doc.get_cursor(CursorIndex::Main).position, Position::new(3, 1));
}

#[test]
fn moving_cursors_by_words_and_paragraphs() {
    let mut pool = LinePool::new();
    let mut doc = doc_with(DocKind::MultiLine, "one two\n\nthree", &mut pool);
    doc.jump_cursors(Position::new(0, 0), false);
    doc.move_cursors_to_next_word(1, false);
    assert_eq!(doc.get_cursor(CursorIndex::Main).position, Position::new(3, 0));
    doc.move_cursor_to_next_word(CursorIndex::Main, 1, true);
    let cursor = doc.get_cursor(CursorIndex::Main);
    assert_eq!(cursor.position, Position::new(7, 0));
    assert_eq!(cursor.selection_anchor, Some(Position::new(3, 0)));
    doc.move_cursors_to_next_paragraph(1, false);
    let cursor = doc.get_cursor(CursorIndex::Main);
    assert_eq!(cursor.position, Position::new(0, 1));
    assert_eq!(cursor.selection_anchor, None);
    doc.move_cursor_to_next_paragraph(CursorIndex::Main, 1, false);
    assert_eq!(doc.get_cursor(CursorIndex::Main).position, Position::new(5, 2));
}

const HELLO_GOODBYE_TEXT: &str = "hello world\ngoodbye world";

#[test]
fn select_next_occurances() {
    let mut pool = LinePool::new();
    let mut doc = doc_with(DocKind::MultiLine, HELLO_GOODBYE_TEXT, &mut pool);
    doc.jump_cursor(CursorIndex::Main, Position::new(6, 0), false);

    doc.add_cursor_at_next_occurance();
    assert_eq!(doc.get_cursor(CursorIndex::Main).position, Position::new(11, 0));
    assert_eq!(doc.cursors_len(), 1);

    doc.add_cursor_at_next_occurance();
    assert_eq!(doc.get_cursor(CursorIndex::Main).position, Position::new(13, 1));
    assert_eq!(doc.cursors_len(), 2);
}

#[test]
fn next_occurance_searches_from_the_main_cursor_itself() {
    let mut pool = LinePool::new();
    let mut doc = doc_with(DocKind::MultiLine, HELLO_GOODBYE_TEXT, &mut pool);
    doc.jump_cursor(CursorIndex::Main, Position::new(11, 0), false);
    doc.jump_cursor(CursorIndex::Main, Position::new(6, 0), true);

    doc.add_cursor_at_next_occurance();
    let cursor = doc.get_cursor(CursorIndex::Main);
    assert_eq!(cursor.position, Position::new(11, 0));
    assert_eq!(cursor.selection_anchor, Some(Position::new(6, 0)));
    assert_eq!(doc.cursors_len(), 2);
}

#[test]
fn putting_text_in_and_taking_it_out_leaves_the_cursors() {
    let mut pool = LinePool::new();
    let mut doc = doc_with(DocKind::MultiLine, "hello\nworld", &mut pool);
    doc.add_cursor(Position::new(3, 0), 0);
    doc.add_cursor(Position::new(2, 1), 0);
    doc.set_cursor_selection(
        CursorIndex::Main,
        Some(Selection { start: Position::new(1, 1), end: Position::new(4, 1) }),
    );
    let before: Vec<(Position, Option<Position>)> = (0..doc.cursors_len())
        .map(|i| {
            let c = doc.get_cursor(CursorIndex::Index(i));
            (c.position, c.selection_anchor)
        })
        .collect();
    let end = doc.insert(Position::new(1, 0), "ab\ncd", &mut pool);
    doc.delete(Position::new(1, 0), end, &mut pool);
    let after: Vec<(Position, Option<Position>)> = (0..doc.cursors_len())
        .map(|i| {
            let c = doc.get_cursor(CursorIndex::Index(i));
            (c.position, c.selection_anchor)
        })
        .collect();
    assert_eq!(doc_text(&doc), "hello\nworld");
    assert_eq!(before, after);
}

#[test]
fn edits_keep_cursors_on_characters() {
    let mut pool = LinePool::new();
    let mut doc = doc_with(DocKind::MultiLine, "héllo\nwörld", &mut pool);
    doc.add_cursor(Position::new(3, 0), 0);
    doc.add_cursor(Position::new(4, 1), 0);
    doc.insert(Position::new(1, 0), "ü\nß", &mut pool);
    doc.delete(Position::new(0, 1), Position::new(3, 2), &mut pool);
    for i in 0..doc.cursors_len() {
        let p = doc.get_cursor(CursorIndex::Index(i)).position;
        let line = doc.get_line(p.y).unwrap();
        assert!(line.is_char_boundary(p.x));
    }
}

#[test]
fn reload_replaces_the_text_and_keeps_cursors_within_it() {
    let mut pool = LinePool::new();
    let mut doc = doc_with(DocKind::MultiLine, "hello\nworld", &mut pool);
    doc.add_cursor(Position::new(3, 0), 0);
    doc.add_cursor(Position::new(1, 0), 0);
    doc.reload("hi\r\nthere", &mut pool);
    assert_eq!(doc_text(&doc), "hi\nthere");
    assert_eq!(doc.cursors_len(), 3);
    assert_eq!(position_of(&doc, 0), Position::new(5, 1));
    assert_eq!(position_of(&doc, 1), Position::new(2, 0));
    assert_eq!(position_of(&doc, 2), Position::new(1, 0));
    assert_eq!(doc.to_string(), "hi\r\nthere");
}
