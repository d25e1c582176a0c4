use editor_text::position::Position;
use editor_text::text::doc::{Doc, DocKind};
use editor_text::text::line_pool::LinePool;
use editor_text::text::pattern::Pattern;
use editor_text::text::syntax::{Syntax, SyntaxRange, SyntaxToken};
use editor_text::text::syntax_highlighter::{
    Highlight, HighlightKind, HighlightResult, HighlightedLine, SyntaxHighlighter,
    TerminalHighlightKind,
};
use editor_text::ui::color::Color;

fn pattern(code: &str) -> Pattern {
    Pattern::parse(code.to_string()).unwrap()
}

fn syntax(has_identifiers: bool) -> Syntax {
    Syntax {
        keywords: vec!["fn".to_string(), "let".to_string()],
        tokens: vec![SyntaxToken { pattern: pattern("%d+"), kind: HighlightKind::Number }],
        ranges: vec![SyntaxRange {
            start: pattern("\""),
            end: pattern("\""),
            escape: Some('\\'),
            kind: HighlightKind::String,
        }],
        has_identifiers,
    }
}

fn span(start: usize, end: usize, kind: HighlightKind) -> Highlight {
    Highlight { start, end, foreground: kind, background: None }
}

fn lines(texts: &[&str]) -> Vec<String> {
    texts.iter().map(|t| t.to_string()).collect()
}

#[test]
fn keywords_numbers_and_merged_plain_text() {
    let mut highlighter = SyntaxHighlighter::new();
    let text = lines(&["fn x = 12;"]);
    highlighter.update(&text, &syntax(false), 0, 0);
    let highlights = highlighter.highlighted_lines()[0].highlights();
    assert_eq!(
        highlights,
        &[
            span(0, 2, HighlightKind::Keyword),
            span(2, 7, HighlightKind::Normal),
            span(7, 9, HighlightKind::Number),
            span(9, 10, HighlightKind::Normal),
        ]
    );
}

#[test]
fn identifiers_are_highlighted_when_the_syntax_asks() {
    let mut highlighter = SyntaxHighlighter::new();
    let text = lines(&["a b"]);
    highlighter.update(&text, &syntax(true), 0, 0);
    let highlights = highlighter.highlighted_lines()[0].highlights();
    assert_eq!(
        highlights,
        &[
            span(0, 1, HighlightKind::Identifier),
            span(1, 2, HighlightKind::Normal),
            span(2, 3, HighlightKind::Identifier),
        ]
    );
}

#[test]
fn a_string_with_an_escaped_quote() {
    let mut highlighter = SyntaxHighlighter::new();
    let text = lines(&["a \"b\\\"c\" d"]);
    highlighter.update(&text, &syntax(false), 0, 0);
    let highlights = highlighter.highlighted_lines()[0].highlights();
    assert_eq!(
        highlights,
        &[
            span(0, 2, HighlightKind::Normal),
            span(2, 8, HighlightKind::String),
            span(8, 10, HighlightKind::Normal),
        ]
    );
}

#[test]
fn a_string_goes_on_to_the_next_line() {
    let mut highlighter = SyntaxHighlighter::new();
    let text = lines(&["x \"abc", "def\" y"]);
    highlighter.update(&text, &syntax(false), 0, 1);
    let first = highlighter.highlighted_lines()[0].highlights();
    assert_eq!(first, &[span(0, 2, HighlightKind::Normal), span(2, 6, HighlightKind::String)]);
    let second = highlighter.highlighted_lines()[1].highlights();
    assert_eq!(second, &[span(0, 4, HighlightKind::String), span(4, 6, HighlightKind::Normal)]);
}

#[test]
fn only_the_lines_asked_for_are_highlighted() {
    let mut highlighter = SyntaxHighlighter::new();
    let text = lines(&["1", "2", "3"]);
    highlighter.update(&text, &syntax(false), 1, 1);
    assert_eq!(highlighter.highlighted_lines().len(), 3);
    assert_eq!(highlighter.highlighted_lines()[0].highlights(), &[]);
    assert_eq!(highlighter.highlighted_lines()[1].highlights(), &[span(0, 1, HighlightKind::Number)]);
    assert_eq!(highlighter.highlighted_lines()[2].highlights(), &[]);
}

#[test]
fn try_update_agrees_with_update() {
    let mut a = SyntaxHighlighter::new();
    let mut b = SyntaxHighlighter::new();
    let text = lines(&["let s = \"q\";", "fn"]);
    a.update(&text, &syntax(true), 0, 5);
    assert!(b.try_update(&text, &syntax(true), 0, 5));
    for y in 0..2 {
        assert_eq!(a.highlighted_lines()[y].highlights(), b.highlighted_lines()[y].highlights());
    }
}

#[test]
fn a_token_found_past_the_cursor_highlights_what_comes_before_it() {
    let syntax = Syntax {
        keywords: vec![],
        tokens: vec![SyntaxToken { pattern: pattern("a(b)"), kind: HighlightKind::Symbol }],
        ranges: vec![],
        has_identifiers: true,
    };
    let mut highlighter = SyntaxHighlighter::new();
    let text = lines(&["ab"]);
    highlighter.update(&text, &syntax, 0, 0);
    let highlights = highlighter.highlighted_lines()[0].highlights();
    assert_eq!(highlights, &[span(0, 1, HighlightKind::Identifier), span(1, 2, HighlightKind::Symbol)]);
    let text = lines(&["+ab"]);
    highlighter.update(&text, &syntax, 0, 0);
    let highlights = highlighter.highlighted_lines()[0].highlights();
    assert_eq!(
        highlights,
        &[
            span(0, 1, HighlightKind::Normal),
            span(1, 2, HighlightKind::Identifier),
            span(2, 3, HighlightKind::Symbol),
        ]
    );
}

#[test]
fn match_identifier_finds_words() {
    match SyntaxHighlighter::match_identifier("  foo_1 bar", 2) {
        HighlightResult::Token { start, end } => {
            assert_eq!((start, end), (2, 7));
        },
        _ => panic!("expected a token"),
    }
    assert!(matches!(SyntaxHighlighter::match_identifier("  1abc", 2), HighlightResult::NoMatch));
}

#[test]
fn terminal_colors_merge_equal_neighbors() {
    let mut highlighter = SyntaxHighlighter::new();
    let red = Color::from_rgb(255, 0, 0);
    let colors = [
        (TerminalHighlightKind::Red, TerminalHighlightKind::Background),
        (TerminalHighlightKind::Red, TerminalHighlightKind::Background),
        (TerminalHighlightKind::Custom(red), TerminalHighlightKind::Background),
    ];
    highlighter.highlight_line_from_terminal_colors(&colors, 2);
    assert_eq!(highlighter.highlighted_lines().len(), 3);
    let background = Some(HighlightKind::Terminal(TerminalHighlightKind::Background));
    assert_eq!(
        highlighter.highlighted_lines()[2].highlights(),
        &[
            Highlight {
                start: 0,
                end: 2,
                foreground: HighlightKind::Terminal(TerminalHighlightKind::Red),
                background,
            },
            Highlight {
                start: 2,
                end: 3,
                foreground: HighlightKind::Terminal(TerminalHighlightKind::Custom(red)),
                background,
            },
        ]
    );
}

#[test]
fn scrolling_moves_emptied_lines() {
    let mut highlighter = SyntaxHighlighter::new();
    let text = lines(&["1", "2", "3"]);
    highlighter.update(&text, &syntax(false), 0, 2);
    highlighter.scroll_highlighted_lines(0, 2, 1);
    assert_eq!(highlighter.highlighted_lines()[0].highlights(), &[span(0, 1, HighlightKind::Number)]);
    assert_eq!(highlighter.highlighted_lines()[2].highlights(), &[]);
    highlighter.scroll_highlighted_lines(0, 2, -1);
    assert_eq!(highlighter.highlighted_lines()[0].highlights(), &[]);
    assert_eq!(highlighter.highlighted_lines()[1].highlights(), &[span(0, 1, HighlightKind::Number)]);
}

#[test]
fn clear_empties_every_line() {
    let mut highlighter = SyntaxHighlighter::new();
    let text = lines(&["1", "2"]);
    highlighter.update(&text, &syntax(false), 0, 1);
    highlighter.clear();
    assert_eq!(highlighter.highlighted_lines().len(), 2);
    assert_eq!(highlighter.highlighted_lines()[0].highlights(), &[]);
    let mut line = HighlightedLine::new();
    line.clear();
    assert_eq!(line.highlights(), &[]);
}

#[test]
fn doc_highlights_lines_up_to_the_view_and_again_after_an_edit() {
    let mut pool = LinePool::new();
    let mut doc = Doc::new(DocKind::MultiLine);
    doc.insert(Position::zero(), "fn x\nlet 7", &mut pool);
    doc.update_highlights(&syntax(false), 1);
    assert_eq!(doc.highlighted_lines().len(), 2);
    assert_eq!(doc.highlighted_lines()[1].highlights(), &[span(0, 3, HighlightKind::Keyword), span(3, 4, HighlightKind::Normal), span(4, 5, HighlightKind::Number)]);
    doc.insert(Position::new(4, 1), "0", &mut pool);
    doc.update_highlights(&syntax(false), 1);
    assert_eq!(doc.highlighted_lines()[1].highlights(), &[span(0, 3, HighlightKind::Keyword), span(3, 4, HighlightKind::Normal), span(4, 6, HighlightKind::Number)]);
    doc.clear_highlights();
    assert!(doc.highlighted_lines()[0].highlights().is_empty());
}

#[test]
fn doc_tokens_are_read_again_after_an_edit() {
    let mut pool = LinePool::new();
    let mut doc = Doc::new(DocKind::MultiLine);
    doc.insert(Position::zero(), "hello world\ngoodbye", &mut pool);
    doc.update_tokens();
    assert_eq!(doc.tokens().traverse("go"), vec!["goodbye".to_string()]);
    doc.insert(Position::new(7, 1), " gopher", &mut pool);
    doc.update_tokens();
    let mut words = doc.tokens().traverse("go");
    words.sort();
    assert_eq!(words, vec!["goodbye".to_string(), "gopher".to_string()]);
}

#[test]
fn a_number_after_a_wide_symbol() {
    let mut highlighter = SyntaxHighlighter::new();
    let text = lines(&["\u{2014}1"]);
    highlighter.update(&text, &syntax(false), 0, 0);
    let highlights = highlighter.highlighted_lines()[0].highlights();
    assert_eq!(highlights, &[span(0, 3, HighlightKind::Normal), span(3, 4, HighlightKind::Number)]);
}
