use editor_text::position::Position;
use editor_text::text::compare::compare_ignore_ascii_case;
use editor_text::text::doc::{DocKind, DocPath};
use editor_text::text::grapheme::{
    is_alphabetic, is_alphanumeric, is_lowercase, is_uppercase, is_whitespace, GraphemeCursor,
};
use editor_text::text::syntax_highlighter::HighlightKind;
use editor_text::text::utf32::{utf32_to_utf8, utf8_to_utf32};
use editor_text::theme::Theme;
use editor_text::ui::color::{Color, ColorParseError};
use editor_text::ui::editor::cursor_history::CursorHistory;
use editor_text::ui::slot_list::{SlotId, SlotList};
use std::cmp::Ordering;
use std::path::PathBuf;

#[test]
fn color_from_hex_splits_bytes() {
    let c = Color::from_hex(0x12345678);
    assert_eq!(c, Color { r: 0x12, g: 0x34, b: 0x56, a: 0x78 });
    assert_eq!(Color::from_rgb(1, 2, 3), Color { r: 1, g: 2, b: 3, a: 255 });
}

#[test]
fn color_parse_hex() {
    assert_eq!(Color::parse_hex("FF0000"), Ok(Color { r: 255, g: 0, b: 0, a: 255 }));
    assert_eq!(Color::parse_hex("0a0B0c80"), Ok(Color { r: 10, g: 11, b: 12, a: 0x80 }));
    assert_eq!(Color::parse_hex("+FFFFF"), Ok(Color { r: 0x0F, g: 0xFF, b: 0xFF, a: 0xFF }));
    assert_eq!(Color::parse_hex("GG0000"), Err(ColorParseError::InvalidDigits));
    assert_eq!(Color::parse_hex("+"), Err(ColorParseError::InvalidLength));
    assert_eq!(Color::parse_hex("FFF"), Err(ColorParseError::InvalidLength));
    assert_eq!(ColorParseError::InvalidLength.message(), "invalid hex color length, expected 6 or 8 digits");
    assert_eq!(ColorParseError::InvalidDigits.message(), "invalid hex color");
}

fn theme(background: Color) -> Theme {
    let c = Color::from_rgb(0, 0, 0);
    Theme {
        normal: Color::from_rgb(1, 1, 1),
        comment: Color::from_rgb(2, 2, 2),
        keyword: Color::from_rgb(3, 3, 3),
        number: Color::from_rgb(4, 4, 4),
        symbol: Color::from_rgb(5, 5, 5),
        string: Color::from_rgb(6, 6, 6),
        selection: c,
        border: c,
        background,
    }
}

#[test]
fn theme_colors_and_darkness() {
    let t = theme(Color::from_rgb(127, 128, 128));
    assert!(t.is_dark());
    assert!(!theme(Color::from_rgb(128, 128, 128)).is_dark());
    assert_eq!(t.highlight_kind_to_color(HighlightKind::Keyword), Color::from_rgb(3, 3, 3));
    assert_eq!(t.highlight_kind_to_color(HighlightKind::String), Color::from_rgb(6, 6, 6));
}

#[test]
fn utf8_to_utf32_reads_sequences() {
    let mut out = vec![7];
    utf8_to_utf32("aé€".as_bytes(), &mut out);
    assert_eq!(out, vec![7, 'a' as u32, 'é' as u32, '€' as u32]);
    let mut out = Vec::new();
    utf8_to_utf32(&[0xF0, 0x41], &mut out);
    assert_eq!(out, vec![0xF0, 0x41]);
}

#[test]
fn utf32_to_utf8_writes_scalars_and_low_bytes() {
    let mut out = Vec::new();
    utf32_to_utf8(&['a' as u32, 'é' as u32, 0x1F600, 0xD800, 0x0011_0041], &mut out);
    let mut expected = "aé😀".as_bytes().to_vec();
    expected.push(0x00);
    expected.push(0x41);
    assert_eq!(out, expected);
}

#[test]
fn utf32_round_trip() {
    let values: Vec<u32> = "héllo wörld €".chars().map(|c| c as u32).collect();
    let mut bytes = Vec::new();
    utf32_to_utf8(&values, &mut bytes);
    let mut back = Vec::new();
    utf8_to_utf32(&bytes, &mut back);
    assert_eq!(back, values);
}

#[test]
fn compare_ignores_ascii_case() {
    assert_eq!(compare_ignore_ascii_case("Hello", "hello"), Ordering::Equal);
    assert_eq!(compare_ignore_ascii_case("abc", "ABD"), Ordering::Less);
    assert_eq!(compare_ignore_ascii_case("b", "A"), Ordering::Greater);
    assert_eq!(compare_ignore_ascii_case("ab", "abc"), Ordering::Less);
}

#[test]
fn cursor_history_remembers_far_moves() {
    let mut history = CursorHistory::new();
    let doc = SlotId::zero();
    assert_eq!(history.update(None, doc, None, Position::new(0, 0)), None);
    assert_eq!(history.update(Some(doc), doc, Some(Position::new(0, 0)), Position::new(0, 5)), None);
    assert_eq!(history.update(Some(doc), doc, Some(Position::new(0, 0)), Position::new(0, 10)), Some(()));
    assert_eq!(history.update(Some(doc), doc, Some(Position::new(0, 20)), Position::new(0, 11)), None);
}

#[test]
fn doc_paths() {
    let none = DocPath::NoPath;
    assert!(none.is_none());
    assert_eq!(none.some(), None);
    let memory = DocPath::InMemory(PathBuf::from("scratch"));
    assert_eq!(memory.some(), Some(PathBuf::from("scratch").as_path()));
    assert_eq!(memory.on_drive(), None);
    let file = DocPath::OnDrive(PathBuf::from("a/b.rs"));
    assert_eq!(file.on_drive(), Some(PathBuf::from("a/b.rs").as_path()));
    assert!(DocKind::Output != DocKind::SingleLine);
}

#[test]
fn cursor_history_steps_back_and_forth_past_closed_docs() {
    let mut docs: SlotList<u32> = SlotList::new();
    let a = docs.add(1);
    let b = docs.add(2);
    let c = docs.add(3);
    let mut history = CursorHistory::new();
    assert_eq!(history.update(Some(a), b, Some(Position::new(0, 3)), Position::new(0, 0)), Some(()));
    assert_eq!(history.update(Some(b), c, Some(Position::new(1, 4)), Position::new(0, 0)), Some(()));
    docs.remove(b);
    let here = (Position::new(2, 2), c);
    assert_eq!(history.undo(Some(here), &docs), Some((Position::new(0, 3), a)));
    assert_eq!(history.update(Some(c), a, Some(Position::new(2, 2)), Position::new(0, 3)), None);
    assert_eq!(history.redo(Some((Position::new(0, 3), a)), &docs), Some((Position::new(2, 2), c)));
    assert_eq!(history.redo(Some((Position::new(2, 2), c)), &docs), None);
    assert_eq!(history.undo(None, &docs), None);
}

#[test]
fn whitespace_agrees_with_std_on_every_char() {
    for v in 0..=0x10FFFFu32 {
        if let Some(c) = char::from_u32(v) {
            let mut buffer = [0u8; 4];
            assert_eq!(is_whitespace(c.encode_utf8(&mut buffer)), c.is_whitespace(), "{:x}", v);
        }
    }
}

#[test]
fn character_classes_agree_with_std() {
    for v in 0..=0x10FFFFu32 {
        if let Some(c) = char::from_u32(v) {
            let mut buffer = [0u8; 4];
            let g: &str = c.encode_utf8(&mut buffer);
            assert_eq!(is_alphabetic(g), c.is_alphabetic(), "{:x}", v);
            assert_eq!(is_alphanumeric(g), c.is_alphanumeric(), "{:x}", v);
            assert_eq!(is_lowercase(g), c.is_lowercase(), "{:x}", v);
            assert_eq!(is_uppercase(g), c.is_uppercase(), "{:x}", v);
            if c.is_ascii() {
                assert_eq!(c.is_alphabetic(), c.is_ascii_alphabetic());
                assert_eq!(c.is_alphanumeric(), c.is_ascii_alphanumeric());
                assert_eq!(c.is_lowercase(), c.is_ascii_lowercase());
                assert_eq!(c.is_uppercase(), c.is_ascii_uppercase());
            }
        }
    }
}

#[test]
fn a_cursor_started_past_its_length_walks_to_the_end() {
    let mut cursor = GraphemeCursor::new(2, 1);
    assert_eq!(cursor.next_boundary("abc"), None);
    assert_eq!(cursor.index(), 3);
    let mut cursor = GraphemeCursor::new(1, 1);
    assert_eq!(cursor.next_boundary("abc"), None);
    assert_eq!(cursor.index(), 1);
}

#[test]
fn compare_is_equal_only_up_to_ascii_case() {
    assert_eq!(compare_ignore_ascii_case("Hello", "hELLO"), Ordering::Equal);
    assert_eq!(compare_ignore_ascii_case("hello", "hello!"), Ordering::Less);
    assert_eq!(compare_ignore_ascii_case("\u{e9}", "\u{c9}"), Ordering::Greater);
    assert_eq!(compare_ignore_ascii_case("", ""), Ordering::Equal);
}
