use vstd::prelude::*;
use vstd::utf8::*;
use crate::ui::color::Color;
use super::strs::{bytes, boundary, lemma_str_valid, lemma_boundary_subrange, sub_str, str_len};
use super::grapheme::{
    GraphemeCursor, at, cursor_next, cursor_next_index, grapheme_end, grapheme_bytes, CharClass, all_in_class,
    is_whitespace,
};
use super::pattern::{Pattern, PatternMatch, blen, advance, can_step, within, to_pattern_match, match_parts_spec};
use super::tokenizer::{identifier_at, Tokenizer};
use super::syntax::{Syntax, SyntaxRange, SyntaxToken, is_keyword};

verus! {

broadcast use vstd::utf8::encode_utf8_valid_utf8, vstd::utf8::encode_utf8_decode_utf8;

/// The colors of a terminal, and colors given outright.
#[derive(PartialEq, Eq, Clone, Copy, Debug, Structural)]
pub enum TerminalHighlightKind {
    Foreground,
    Background,
    Red,
    Green,
    Yellow,
    Blue,
    Magenta,
    Cyan,
    BrightForeground,
    BrightBackground,
    BrightRed,
    BrightGreen,
    BrightYellow,
    BrightBlue,
    BrightMagenta,
    BrightCyan,
    Custom(Color),
}

/// What a stretch of text is, for coloring it.
#[derive(PartialEq, Eq, Clone, Copy, Debug, Structural)]
pub enum HighlightKind {
    Normal,
    Identifier,
    Comment,
    Keyword,
    Function,
    Number,
    Symbol,
    String,
    Meta,
    Terminal(TerminalHighlightKind),
}

/// A stretch of a line, in bytes, and how it is colored.
#[derive(Debug, Clone, Copy, PartialEq, Eq, Structural)]
pub struct Highlight {
    pub start: usize,
    pub end: usize,
    pub foreground: HighlightKind,
    pub background: Option<HighlightKind>,
}

/// What a match against a line found: a token, a range (which may go on past the line), or
/// nothing.
pub enum HighlightResult {
    Token { start: usize, end: usize },
    Range { start: usize, end: usize, is_finished: bool },
    NoMatch,
}

/// The highlights of a line, and the range that is still open at its end, if any.
pub struct HighlightedLine {
    highlights: Vec<Highlight>,
    unfinished_range_index: Option<usize>,
}

/// The highlights of a line and the index of the range left open at its end.
pub type LineView = (Seq<Highlight>, Option<usize>);

/// A highlight of the default background.
pub open spec fn span(start: usize, end: usize, kind: HighlightKind) -> Highlight {
    Highlight { start, end, foreground: kind, background: None }
}

/// The highlights after adding `h`: an empty one is dropped, and one that goes on from the
/// last in the same colors lengthens it.
pub open spec fn merged(spans: Seq<Highlight>, h: Highlight) -> Seq<Highlight> {
    if h.start == h.end {
        spans
    } else if spans.len() > 0 && spans.last().end == h.start && spans.last().foreground == h.foreground
        && spans.last().background == h.background {
        spans.drop_last().push(
            Highlight {
                start: spans.last().start,
                end: h.end,
                foreground: spans.last().foreground,
                background: spans.last().background,
            },
        )
    } else {
        spans.push(h)
    }
}

/// A line's state after adding `h`.
pub open spec fn push_span(st: LineView, h: Highlight) -> LineView {
    (merged(st.0, h), st.1)
}

/// Whether `spans` cover the bytes `0..n` of a line one after another: none is empty, each
/// starts where the one before it ends, and no two neighbors have the same colors.
pub open spec fn tiles(spans: Seq<Highlight>, n: int) -> bool {
    &&& spans.len() == 0 ==> n == 0
    &&& spans.len() > 0 ==> spans[0].start == 0 && spans.last().end == n
    &&& forall|k: int| 0 <= k < spans.len() ==> (#[trigger] spans[k]).start < spans[k].end
    &&& forall|j: int, k: int|
        #![trigger spans[j], spans[k]]
        0 <= j && k == j + 1 && k < spans.len() ==> spans[j].end == spans[k].start && !(spans[j].foreground
            == spans[k].foreground && spans[j].background == spans[k].background)
}

/// Adding a highlight that starts where the tiled ones end tiles up to its end.
pub proof fn lemma_tiles_merged(spans: Seq<Highlight>, n: int, h: Highlight)
    requires
        tiles(spans, n),
        h.start == n,
        n <= h.end,
    ensures
        tiles(merged(spans, h), h.end as int),
{
    let r = merged(spans, h);
    if h.start == h.end {
    } else if spans.len() > 0 && spans.last().end == h.start && spans.last().foreground == h.foreground
        && spans.last().background == h.background {
        let m = spans.len() - 1;
        assert forall|k: int| 0 <= k < r.len() implies (#[trigger] r[k]).start < r[k].end by {
            if k < m {
                assert(r[k] == spans[k]);
            } else {
                assert(spans[m].start < spans[m].end);
            }
        }
        assert forall|j: int, k: int| 0 <= j && k == j + 1 && k < r.len() implies r[j].end == r[k].start && !(
        r[j].foreground == r[k].foreground && r[j].background == r[k].background) by {
            assert(r[j] == spans[j]);
            assert(spans[j].end == spans[k].start);
        }
    } else {
        let m = spans.len() as int;
        assert forall|k: int| 0 <= k < r.len() implies (#[trigger] r[k]).start < r[k].end by {
            if k < m {
                assert(r[k] == spans[k]);
            }
        }
        assert forall|j: int, k: int| 0 <= j && k == j + 1 && k < r.len() implies r[j].end == r[k].start && !(
        r[j].foreground == r[k].foreground && r[j].background == r[k].background) by {
            assert(r[j] == spans[j]);
            if k < m {
                assert(r[k] == spans[k]);
            }
        }
    }
}

/// Whether every match of a token of `syn`, on any text and from any place, ends no earlier
/// than it starts.
pub open spec fn tokens_forward(syn: &Syntax) -> bool {
    forall|t: Seq<char>, i: usize|
        #[trigger] first_token(t, syn, i, 0) matches Some((_k, s, e)) ==> s <= e
}

impl View for HighlightedLine {
    type V = LineView;

    closed spec fn view(&self) -> LineView {
        (self.highlights@, self.unfinished_range_index)
    }
}

fn same_kind(a: HighlightKind, b: HighlightKind) -> (r: bool)
    ensures
        r == (a == b),
{
    a == b
}

fn same_background(a: Option<HighlightKind>, b: Option<HighlightKind>) -> (r: bool)
    ensures
        r == (a == b),
{
    match (a, b) {
        (Some(x), Some(y)) => same_kind(x, y),
        (None, None) => true,
        _ => false,
    }
}

impl HighlightedLine {
    pub fn new() -> (r: Self)
        ensures
            r@ == (Seq::<Highlight>::empty(), None::<usize>),
    {
        Self { highlights: Vec::new(), unfinished_range_index: None }
    }

    /// Drops the highlights and forgets an open range.
    pub fn clear(&mut self)
        ensures
            final(self)@ == (Seq::<Highlight>::empty(), None::<usize>),
    {
        self.highlights.clear();
        self.unfinished_range_index = None;
    }

    fn push(&mut self, highlight: Highlight)
        ensures
            final(self)@ == push_span(old(self)@, highlight),
    {
        if highlight.start == highlight.end {
            return;
        }
        let n = self.highlights.len();
        if n > 0 {
            let last = self.highlights[n - 1];
            if last.end == highlight.start && same_kind(last.foreground, highlight.foreground)
                && same_background(last.background, highlight.background) {
                self.highlights.set(
                    n - 1,
                    Highlight {
                        start: last.start,
                        end: highlight.end,
                        foreground: last.foreground,
                        background: last.background,
                    },
                );
                proof {
                    assert(self.highlights@ =~= old(self).highlights@.drop_last().push(
                        Highlight {
                            start: last.start,
                            end: highlight.end,
                            foreground: last.foreground,
                            background: last.background,
                        },
                    ));
                }
                return;
            }
        }
        self.highlights.push(highlight);
    }

    fn set_unfinished(&mut self, index: Option<usize>)
        ensures
            final(self)@ == (old(self)@.0, index),
    {
        self.unfinished_range_index = index;
    }

    fn unfinished(&self) -> (r: Option<usize>)
        ensures
            r == self@.1,
    {
        self.unfinished_range_index
    }

    /// The highlights, in order.
    pub fn highlights(&self) -> (r: &[Highlight])
        ensures
            r@ == self@.0,
    {
        self.highlights.as_slice()
    }

    /// A copy with the same highlights and open range.
    fn copy(&self) -> (r: Self)
        ensures
            r@ == self@,
    {
        let mut highlights: Vec<Highlight> = Vec::new();
        let mut k: usize = 0;
        while k < self.highlights.len()
            invariant
                k <= self.highlights@.len(),
                highlights@ == self.highlights@.subrange(0, k as int),
            decreases self.highlights@.len() - k,
        {
            highlights.push(self.highlights[k]);
            k = k + 1;
        }
        proof {
            assert(highlights@ =~= self.highlights@);
        }
        Self { highlights, unfinished_range_index: self.unfinished_range_index }
    }
}

/* What highlighting computes. */

/// Where the pattern `p` matches `t` at `i`.
pub open spec fn pattern_at(p: &Pattern, t: Seq<char>, i: usize) -> Option<PatternMatch> {
    to_pattern_match(match_parts_spec(p.code_view(), t, p.parts_view(), i), i)
}

/// The characters of the bytes `s..e` of `t`.
pub open spec fn text_between(t: Seq<char>, s: usize, e: usize) -> Seq<char> {
    decode_utf8(encode_utf8(t).subrange(s as int, e as int))
}

/// Whether the grapheme of `t` at `j` is the escape character `escape`.
pub open spec fn escape_at(t: Seq<char>, j: usize, escape: Option<char>) -> bool {
    escape matches Some(c) && decode_utf8(grapheme_bytes(t, j)) == seq![c]
}

/// Scanning a range from `j` for its end: an escaped grapheme is skipped, and at the end of
/// the line the range stays open. The position reached, and whether the end was found.
pub open spec fn range_scan(t: Seq<char>, r: &SyntaxRange, j: usize) -> (usize, bool)
    decreases blen(t) - j,
{
    if can_step(t, j) {
        if escape_at(t, j, r.escape) {
            let j2 = advance(t, grapheme_end(t, j));
            if j < j2 <= blen(t) {
                range_scan(t, r, j2)
            } else {
                (j2, false)
            }
        } else {
            match pattern_at(&r.end, t, j) {
                Some(m) => (m.end, true),
                None => range_scan(t, r, grapheme_end(t, j)),
            }
        }
    } else {
        (j, false)
    }
}

/// Matching a range at `start` of `t`; one already in progress needs no start match.
pub open spec fn match_range_spec(t: Seq<char>, r: &SyntaxRange, start: usize, is_in_progress: bool) -> HighlightResult {
    if is_in_progress {
        HighlightResult::Range { start, end: range_scan(t, r, start).0, is_finished: range_scan(t, r, start).1 }
    } else {
        match pattern_at(&r.start, t, start) {
            Some(m) => HighlightResult::Range {
                start,
                end: range_scan(t, r, m.end).0,
                is_finished: range_scan(t, r, m.end).1,
            },
            None => HighlightResult::NoMatch,
        }
    }
}

/// The first of the syntax's ranges, from the `k`th on, that starts at `i`: its index,
/// where it ends and whether it ends on the line.
pub open spec fn first_range(t: Seq<char>, syn: &Syntax, i: usize, k: int) -> Option<(usize, usize, bool)>
    decreases syn.ranges@.len() - k,
{
    if 0 <= k < syn.ranges@.len() {
        match match_range_spec(t, &syn.ranges@[k], i, false) {
            HighlightResult::Range { start: _, end, is_finished } => Some((k as usize, end, is_finished)),
            _ => first_range(t, syn, i, k + 1),
        }
    } else {
        None
    }
}

/// The first of the syntax's tokens, from the `k`th on, that matches at `i`: its index and
/// the bounds of the match.
pub open spec fn first_token(t: Seq<char>, syn: &Syntax, i: usize, k: int) -> Option<(usize, usize, usize)>
    decreases syn.tokens@.len() - k,
{
    if 0 <= k < syn.tokens@.len() {
        match pattern_at(&syn.tokens@[k].pattern, t, i) {
            Some(m) => Some((k as usize, m.start, m.end)),
            None => first_token(t, syn, i, k + 1),
        }
    } else {
        None
    }
}

/// The first `s` bytes of `t`, as characters.
pub open spec fn prefix_text(t: Seq<char>, s: usize) -> Seq<char> {
    decode_utf8(encode_utf8(t).subrange(0, s as int))
}

/// Highlighting `t` from `i` on, where the cursor was made for `len` bytes, onto the line
/// state `st`: at each place a keyword, a range, a token, or else the grapheme (or the
/// identifier) there with the default colors. `None` where the highlighter would not come
/// to an end: where a step would not move past `i`, or a token would have the whole text
/// highlighted again before it.
pub open spec fn hl(t: Seq<char>, syn: &Syntax, len: usize, i: usize, st: LineView) -> Option<LineView>
    decreases blen(t), blen(t) - i,
{
    if i >= blen(t) {
        Some(st)
    } else {
        let de0 = cursor_next_index(t, i, len);
        if all_in_class(CharClass::Whitespace, decode_utf8(grapheme_bytes(t, i))) {
            if i < de0 <= blen(t) {
                hl(t, syn, len, de0, push_span(st, span(i, de0, HighlightKind::Normal)))
            } else {
                None
            }
        } else {
            let ident = identifier_at(t, i);
            let (s, e) = match ident {
                Some(p) => p,
                None => (i, i),
            };
            if ident is Some && is_keyword(syn, text_between(t, s, e)) {
                if i < e <= blen(t) {
                    hl(t, syn, len, e, push_span(st, span(s, e, HighlightKind::Keyword)))
                } else {
                    None
                }
            } else {
                let de = if ident is Some { e } else { de0 };
                let kind = if ident is Some && syn.has_identifiers {
                    HighlightKind::Identifier
                } else {
                    HighlightKind::Normal
                };
                match first_range(t, syn, i, 0) {
                    Some((k, e, fin)) => {
                        let st2 = push_span(st, span(i, e, syn.ranges@[k as int].kind));
                        let st3 = if fin { st2 } else { (st2.0, Some(k)) };
                        if i < e <= blen(t) {
                            hl(t, syn, len, e, st3)
                        } else {
                            None
                        }
                    },
                    None => match first_token(t, syn, i, 0) {
                        Some((k, s, e)) => {
                            let before = if s > i {
                                if blen(prefix_text(t, s)) < blen(t) {
                                    hl(prefix_text(t, s), syn, len, i, st)
                                } else {
                                    None
                                }
                            } else {
                                Some(st)
                            };
                            match before {
                                Some(st1) => if i < e <= blen(t) {
                                    hl(t, syn, len, e, push_span(st1, span(s, e, syn.tokens@[k as int].kind)))
                                } else {
                                    None
                                },
                                None => None,
                            }
                        },
                        None => if i < de <= blen(t) {
                            hl(t, syn, len, de, push_span(st, span(i, de, kind)))
                        } else {
                            None
                        },
                    },
                }
            }
        }
    }
}

/// Whether the grapheme `g` is the character `c`.
fn grapheme_is_char(g: &str, c: char) -> (r: bool)
    ensures
        r == (g@ == seq![c]),
{
    let r = g.unicode_len() == 1 && g.get_char(0) == c;
    proof {
        if r {
            assert(g@ =~= seq![c]);
        }
    }
    r
}

/// Whether a position lies within `line` at a character boundary.
pub open spec fn at_boundary(line: &str, i: usize) -> bool {
    i <= bytes(line).len() && boundary(bytes(line), i as int)
}

impl SyntaxHighlighter {
    /// An identifier at `start`, as a token.
    pub fn match_identifier(line: &str, start: usize) -> (r: HighlightResult)
        requires
            at_boundary(line, start),
        ensures
            r == match identifier_at(line@, start) {
                Some((s, e)) => HighlightResult::Token { start: s, end: e },
                None => HighlightResult::NoMatch,
            },
            r matches HighlightResult::Token { start: s, end: e } ==> s == start && at_boundary(line, e)
                && start <= e && (start < bytes(line).len() ==> start < e),
    {
        let mut grapheme_cursor = GraphemeCursor::new(start, str_len(line));
        match Tokenizer::tokenize_identifier(line, &mut grapheme_cursor) {
            Some((s, e)) => HighlightResult::Token { start: s, end: e },
            None => HighlightResult::NoMatch,
        }
    }

    fn match_token(line: &str, start: usize, token: &SyntaxToken) -> (r: HighlightResult)
        requires
            at_boundary(line, start),
        ensures
            r == match pattern_at(&token.pattern, line@, start) {
                Some(m) => HighlightResult::Token { start: m.start, end: m.end },
                None => HighlightResult::NoMatch,
            },
            r matches HighlightResult::Token { start: s, end: e } ==> within(line@, start, s) && within(
                line@,
                start,
                e,
            ),
    {
        match token.pattern.match_text(line, start) {
            Some(pattern_match) => HighlightResult::Token { start: pattern_match.start, end: pattern_match.end },
            None => HighlightResult::NoMatch,
        }
    }

    fn match_range(line: &str, start: usize, range: &SyntaxRange, is_in_progress: bool) -> (r: HighlightResult)
        requires
            at_boundary(line, start),
        ensures
            r == match_range_spec(line@, range, start, is_in_progress),
            r matches HighlightResult::Range { start: s, end: e, is_finished: _ } ==> s == start && within(
                line@,
                start,
                e,
            ),
            is_in_progress ==> r is Range,
    {
        proof { lemma_str_valid(line); }
        let len = str_len(line);
        let mut grapheme_cursor = GraphemeCursor::new(start, len);
        if !is_in_progress {
            match range.start.match_text(line, start) {
                Some(pattern_match) => grapheme_cursor.set_index(pattern_match.end),
                None => {
                    return HighlightResult::NoMatch;
                },
            }
        }
        let ghost j0 = grapheme_cursor.spec_index();
        while grapheme_cursor.index() < len
            invariant
                len == bytes(line).len(),
                grapheme_cursor.spec_len() == len,
                within(line@, start, grapheme_cursor.spec_index()),
                range_scan(line@, range, j0) == range_scan(line@, range, grapheme_cursor.spec_index()),
                match_range_spec(line@, range, start, is_in_progress) == (HighlightResult::Range {
                    start,
                    end: range_scan(line@, range, j0).0,
                    is_finished: range_scan(line@, range, j0).1,
                }),
            decreases len - grapheme_cursor.spec_index(),
        {
            let index = grapheme_cursor.index();
            let grapheme = at(index, line);
            assert(can_step(line@, index));
            let escaped = match range.escape {
                Some(c) => grapheme_is_char(grapheme, c),
                None => false,
            };
            if escaped {
                grapheme_cursor.next_boundary(line);
                assert(grapheme_cursor.spec_index() == grapheme_end(line@, index));
                grapheme_cursor.next_boundary(line);
                assert(grapheme_cursor.spec_index() == advance(line@, grapheme_end(line@, index)));
                continue;
            }
            if let Some(pattern_match) = range.end.match_text(line, index) {
                return HighlightResult::Range { start, end: pattern_match.end, is_finished: true };
            }
            grapheme_cursor.next_boundary(line);
        }
        HighlightResult::Range { start, end: grapheme_cursor.index(), is_finished: false }
    }
}

fn find_range(line: &str, syntax: &Syntax, start: usize) -> (r: Option<(usize, usize, bool)>)
    requires
        at_boundary(line, start),
    ensures
        r == first_range(line@, syntax, start, 0),
        r matches Some((k, e, _)) ==> k < syntax.ranges@.len() && within(line@, start, e),
{
    let mut k: usize = 0;
    while k < syntax.ranges.len()
        invariant
            at_boundary(line, start),
            k <= syntax.ranges@.len(),
            first_range(line@, syntax, start, 0) == first_range(line@, syntax, start, k as int),
        decreases syntax.ranges@.len() - k,
    {
        if let HighlightResult::Range { start: _, end, is_finished } = SyntaxHighlighter::match_range(
            line,
            start,
            &syntax.ranges[k],
            false,
        ) {
            return Some((k, end, is_finished));
        }
        k = k + 1;
    }
    None
}

fn find_token(line: &str, syntax: &Syntax, start: usize) -> (r: Option<(usize, usize, usize)>)
    requires
        at_boundary(line, start),
    ensures
        r == first_token(line@, syntax, start, 0),
        r matches Some((k, s, e)) ==> k < syntax.tokens@.len() && within(line@, start, s) && within(
            line@,
            start,
            e,
        ),
{
    let mut k: usize = 0;
    while k < syntax.tokens.len()
        invariant
            at_boundary(line, start),
            k <= syntax.tokens@.len(),
            first_token(line@, syntax, start, 0) == first_token(line@, syntax, start, k as int),
        decreases syntax.tokens@.len() - k,
    {
        if let HighlightResult::Token { start: s, end: e } = SyntaxHighlighter::match_token(line, start, &syntax.tokens[k]) {
            return Some((k, s, e));
        }
        k = k + 1;
    }
    None
}

/// Highlights `line` from the cursor on. Returns whether the highlighting came to an end;
/// where it would not have, the line state is left partly done.
fn highlight_line(
    highlighted_line: &mut HighlightedLine,
    line: &str,
    syntax: &Syntax,
    grapheme_cursor: &mut GraphemeCursor,
) -> (done: bool)
    requires
        at_boundary(line, old(grapheme_cursor).spec_index()),
    ensures
        done == hl(
            line@,
            syntax,
            old(grapheme_cursor).spec_len(),
            old(grapheme_cursor).spec_index(),
            old(highlighted_line)@,
        ) is Some,
        done ==> final(highlighted_line)@ == hl(
            line@,
            syntax,
            old(grapheme_cursor).spec_len(),
            old(grapheme_cursor).spec_index(),
            old(highlighted_line)@,
        )->0,
        final(grapheme_cursor).spec_len() == old(grapheme_cursor).spec_len(),
        done && tokens_forward(syntax) && tiles(old(highlighted_line)@.0, old(grapheme_cursor).spec_index() as int)
            ==> tiles(final(highlighted_line)@.0, bytes(line).len() as int),
    decreases bytes(line).len(),
{
    proof { lemma_str_valid(line); }
    let len = str_len(line);
    let ghost cl = grapheme_cursor.spec_len();
    let ghost t = line@;
    let ghost target = hl(t, syntax, cl, grapheme_cursor.spec_index(), highlighted_line@);
    while grapheme_cursor.index() < len
        invariant
            t == line@,
            len == bytes(line).len(),
            valid_utf8(bytes(line)),
            boundary(bytes(line), len as int),
            at_boundary(line, grapheme_cursor.spec_index()),
            grapheme_cursor.spec_len() == cl,
            cl == old(grapheme_cursor).spec_len(),
            target == hl(t, syntax, cl, old(grapheme_cursor).spec_index(), old(highlighted_line)@),
            target == hl(t, syntax, cl, grapheme_cursor.spec_index(), highlighted_line@),
            tokens_forward(syntax) && tiles(old(highlighted_line)@.0, old(grapheme_cursor).spec_index() as int)
                ==> tiles(highlighted_line@.0, grapheme_cursor.spec_index() as int),
        decreases len - grapheme_cursor.spec_index(),
    {
        let default_start = grapheme_cursor.index();
        let ghost prior = highlighted_line@;
        grapheme_cursor.next_boundary(line);
        let first_end = grapheme_cursor.index();
        grapheme_cursor.set_index(default_start);
        let grapheme = at(default_start, line);
        if is_whitespace(grapheme) {
            highlighted_line.push(Highlight { start: default_start, end: first_end, foreground: HighlightKind::Normal, background: None });
            if first_end <= default_start {
                return false;
            }
            proof {
                if tokens_forward(syntax) && tiles(old(highlighted_line)@.0, old(grapheme_cursor).spec_index() as int) {
                    lemma_tiles_merged(prior.0, default_start as int, span(default_start, first_end, HighlightKind::Normal));
                }
            }
            grapheme_cursor.set_index(first_end);
            continue;
        }
        let mut default_end = first_end;
        let mut is_identifier = false;
        if let HighlightResult::Token { start, end } = SyntaxHighlighter::match_identifier(line, default_start) {
            let identifier = sub_str(line, start, end);
            if syntax.has_keyword(identifier) {
                highlighted_line.push(Highlight { start, end, foreground: HighlightKind::Keyword, background: None });
                if end <= default_start {
                    return false;
                }
                proof {
                    if tokens_forward(syntax) && tiles(old(highlighted_line)@.0, old(grapheme_cursor).spec_index() as int) {
                        lemma_tiles_merged(prior.0, default_start as int, span(start, end, HighlightKind::Keyword));
                    }
                }
                grapheme_cursor.set_index(end);
                continue;
            }
            default_end = end;
            is_identifier = true;
        }
        let default_foreground = if is_identifier && syntax.has_identifiers {
            HighlightKind::Identifier
        } else {
            HighlightKind::Normal
        };
        if let Some((k, end, is_finished)) = find_range(line, syntax, default_start) {
            highlighted_line.push(Highlight { start: default_start, end, foreground: syntax.ranges[k].kind, background: None });
            if !is_finished {
                highlighted_line.set_unfinished(Some(k));
            }
            if end <= default_start {
                return false;
            }
            proof {
                if tokens_forward(syntax) && tiles(old(highlighted_line)@.0, old(grapheme_cursor).spec_index() as int) {
                    lemma_tiles_merged(prior.0, default_start as int, span(default_start, end, syntax.ranges@[k as int].kind));
                }
            }
            grapheme_cursor.set_index(end);
            continue;
        }
        if let Some((k, start, end)) = find_token(line, syntax, default_start) {
            if start > default_start {
                if start >= len {
                    proof {
                        assert(encode_utf8(t).subrange(0, start as int) =~= encode_utf8(t));
                        assert(prefix_text(t, start) == t);
                    }
                    return false;
                }
                let before = sub_str(line, 0, start);
                proof {
                    lemma_boundary_subrange(bytes(line), 0, start as int, default_start as int);
                    assert(bytes(line).subrange(0, start as int) =~= encode_utf8(t).subrange(0, start as int));
                }
                if !highlight_line(highlighted_line, before, syntax, grapheme_cursor) {
                    return false;
                }
            }
            let ghost before_token = highlighted_line@;
            highlighted_line.push(Highlight { start, end, foreground: syntax.tokens[k].kind, background: None });
            if end <= default_start {
                return false;
            }
            proof {
                if tokens_forward(syntax) && tiles(old(highlighted_line)@.0, old(grapheme_cursor).spec_index() as int) {
                    assert(first_token(t, syntax, default_start, 0) == Some((k, start, end)));
                    assert(tiles(before_token.0, start as int));
                    lemma_tiles_merged(before_token.0, start as int, span(start, end, syntax.tokens@[k as int].kind));
                }
            }
            grapheme_cursor.set_index(end);
            continue;
        }
        highlighted_line.push(Highlight { start: default_start, end: default_end, foreground: default_foreground, background: None });
        if default_end <= default_start {
            return false;
        }
        proof {
            if tokens_forward(syntax) && tiles(old(highlighted_line)@.0, old(grapheme_cursor).spec_index() as int) {
                lemma_tiles_merged(prior.0, default_start as int, span(default_start, default_end, default_foreground));
            }
        }
        grapheme_cursor.set_index(default_end);
    }
    true
}

/// The states of a sequence of lines.
pub open spec fn views(v: Seq<HighlightedLine>) -> Seq<LineView> {
    v.map_values(|l: HighlightedLine| l@)
}

/// A line with no highlights and no open range.
pub open spec fn empty_line() -> LineView {
    (Seq::<Highlight>::empty(), None::<usize>)
}

/// The line `t` highlighted after a line whose state was `prev`: a range left open there is
/// carried on first. `None` where highlighting would fail: the open range is not one of the
/// syntax's, or the highlighting would not come to an end.
pub open spec fn line_result(t: Seq<char>, syn: &Syntax, prev: Option<LineView>) -> Option<LineView> {
    match prev {
        Some(p) => match p.1 {
            Some(k) => if k < syn.ranges@.len() {
                match match_range_spec(t, &syn.ranges@[k as int], 0, true) {
                    HighlightResult::Range { start, end, is_finished } => {
                        let st1 = push_span(empty_line(), span(start, end, syn.ranges@[k as int].kind));
                        let st2 = if is_finished { st1 } else { (st1.0, Some(k)) };
                        hl(t, syn, blen(t) as usize, end, st2)
                    },
                    _ => hl(t, syn, blen(t) as usize, 0, empty_line()),
                }
            } else {
                None
            },
            None => hl(t, syn, blen(t) as usize, 0, empty_line()),
        },
        None => hl(t, syn, blen(t) as usize, 0, empty_line()),
    }
}

/// The line states after highlighting lines `y` up to `last` (and no further than the text
/// goes), each after the one before it.
pub open spec fn update_from(
    states: Seq<LineView>,
    texts: Seq<Seq<char>>,
    syn: &Syntax,
    y: int,
    last: int,
) -> Option<Seq<LineView>>
    decreases last + 1 - y,
{
    if y > last || y >= texts.len() || y < 0 {
        Some(states)
    } else {
        let prev = if y > 0 { Some(states[y - 1]) } else { None };
        match line_result(texts[y], syn, prev) {
            Some(v) => update_from(states.update(y, v), texts, syn, y + 1, last),
            None => None,
        }
    }
}

/// The states, with empty lines added until there is one for each of `n` lines.
pub open spec fn grown(states: Seq<LineView>, n: int) -> Seq<LineView> {
    if states.len() < n {
        states + Seq::new((n - states.len()) as nat, |_i: int| empty_line())
    } else {
        states
    }
}

/// One more line for a line count that grows by one.
proof fn lemma_grown_push(states: Seq<LineView>, n: int)
    requires
        states.len() <= n,
    ensures
        grown(states, n + 1) == grown(states, n).push(empty_line()),
{
    assert(grown(states, n + 1) =~= grown(states, n).push(empty_line()));
}

/// The states of lines with one more line at the end.
proof fn lemma_views_push(v: Seq<HighlightedLine>, l: HighlightedLine)
    ensures
        views(v.push(l)) == views(v).push(l@),
{
    assert(views(v.push(l)) =~= views(v).push(l@));
}

/// The line states after `update` with the texts `texts` for lines `start_y` to `end_y`.
pub open spec fn update_spec(
    states: Seq<LineView>,
    texts: Seq<Seq<char>>,
    syn: &Syntax,
    start_y: usize,
    end_y: usize,
) -> Option<Seq<LineView>> {
    update_from(grown(states, texts.len() as int), texts, syn, start_y as int, end_y as int)
}

/// The characters of each of a sequence of strings.
pub open spec fn texts_of(lines: Seq<String>) -> Seq<Seq<char>> {
    lines.map_values(|l: String| l@)
}

/// Highlights the lines `start_y` to `end_y` of `texts` into `lines`, adding lines as needed.
/// Returns whether it came to an end; where not, `lines` is left partly done.
fn update_lines(
    lines: &mut Vec<HighlightedLine>,
    texts: &[String],
    syntax: &Syntax,
    start_y: usize,
    end_y: usize,
) -> (done: bool)
    ensures
        done == update_spec(views(old(lines)@), texts_of(texts@), syntax, start_y, end_y) is Some,
        done ==> views(final(lines)@) == update_spec(
            views(old(lines)@),
            texts_of(texts@),
            syntax,
            start_y,
            end_y,
        )->0,
        final(lines)@.len() >= texts@.len(),
        done && tokens_forward(syntax) ==> forall|z: int|
            start_y <= z <= end_y && z < texts@.len() ==> tiles(
                #[trigger] final(lines)@[z]@.0,
                blen(texts@[z]@),
            ),
{
    let ghost texts_v = texts_of(texts@);
    let ghost start_states = grown(views(old(lines)@), texts@.len() as int);
    while lines.len() < texts.len()
        invariant
            views(lines@) == grown(views(old(lines)@), lines@.len() as int),
            old(lines)@.len() <= lines@.len(),
            lines@.len() <= texts@.len() || lines@.len() == old(lines)@.len(),
        decreases texts@.len() - lines@.len(),
    {
        let ghost before = lines@;
        let fresh = HighlightedLine::new();
        lines.push(fresh);
        proof {
            lemma_views_push(before, fresh);
            lemma_grown_push(views(old(lines)@), before.len() as int);
        }
    }
    proof {
        assert(views(lines@) =~= start_states);
    }
    let ghost target = update_spec(views(old(lines)@), texts_v, syntax, start_y, end_y);
    let mut y = start_y;
    while y <= end_y && y < texts.len()
        invariant
            texts_v == texts_of(texts@),
            lines@.len() >= texts@.len(),
            start_y <= y,
            target == update_spec(views(old(lines)@), texts_v, syntax, start_y, end_y),
            target == update_from(views(lines@), texts_v, syntax, y as int, end_y as int),
            tokens_forward(syntax) ==> forall|z: int|
                start_y <= z < y && z < texts@.len() ==> tiles(#[trigger] lines@[z]@.0, blen(texts@[z]@)),
        decreases end_y - y + 1, texts@.len() - y,
    {
        let ghost states = views(lines@);
        let text = texts[y].as_str();
        let mut line_state = HighlightedLine::new();
        std::mem::swap(&mut line_state, &mut lines[y]);
        line_state.clear();
        let mut grapheme_cursor = GraphemeCursor::new(0, str_len(text));
        proof {
            lemma_str_valid(text);
            assert(text@ == texts_v[y as int]);
            assert(tiles(line_state@.0, 0));
        }
        if y > 0 {
            if let Some(k) = lines[y - 1].unfinished() {
                assert(states[y - 1] == lines@[y - 1]@);
                if k >= syntax.ranges.len() {
                    return false;
                }
                if let HighlightResult::Range { start, end, is_finished } = SyntaxHighlighter::match_range(
                    text,
                    0,
                    &syntax.ranges[k],
                    true,
                ) {
                    proof {
                        lemma_tiles_merged(line_state@.0, 0, span(start, end, syntax.ranges@[k as int].kind));
                    }
                    line_state.push(Highlight { start, end, foreground: syntax.ranges[k].kind, background: None });
                    grapheme_cursor.set_index(end);
                    if !is_finished {
                        line_state.set_unfinished(Some(k));
                    }
                }
            }
        }
        let done = highlight_line(&mut line_state, text, syntax, &mut grapheme_cursor);
        if !done {
            return false;
        }
        let ghost lines_before = lines@;
        std::mem::swap(&mut line_state, &mut lines[y]);
        proof {
            assert(views(lines@) =~= states.update(y as int, lines@[y as int]@));
            assert(text@ == texts@[y as int]@);
            assert forall|z: int| start_y <= z < y + 1 && z < texts@.len() && tokens_forward(syntax) implies tiles(
                #[trigger] lines@[z]@.0,
                blen(texts@[z]@),
            ) by {
                if z < y {
                    assert(lines@[z] == lines_before[z]);
                }
            }
        }
        if y == usize::MAX {
            return true;
        }
        y = y + 1;
    }
    true
}

/// The line state that terminal colors give, one highlight per cell, merged where neighbors
/// have the same colors.
pub open spec fn terminal_line(colors: Seq<(TerminalHighlightKind, TerminalHighlightKind)>) -> LineView
    decreases colors.len(),
{
    if colors.len() == 0 {
        empty_line()
    } else {
        let x = (colors.len() - 1) as usize;
        push_span(
            terminal_line(colors.drop_last()),
            Highlight {
                start: x,
                end: (x + 1) as usize,
                foreground: HighlightKind::Terminal(colors.last().0),
                background: Some(HighlightKind::Terminal(colors.last().1)),
            },
        )
    }
}

/// The line states after scrolling `n` times: the line at `from` is taken out, emptied and
/// put back in at `to`.
pub open spec fn scrolled(states: Seq<LineView>, from: int, to: int, n: nat) -> Seq<LineView>
    decreases n,
{
    if n == 0 {
        states
    } else {
        scrolled(states.remove(from).insert(to, empty_line()), from, to, (n - 1) as nat)
    }
}

/// The state of line `k` after scrolling `n` times from `from` to `to`: outside the region
/// between them a line keeps its state; inside, the states move `n` lines towards `from`, and
/// the `n` lines next to `to` are empty.
pub open spec fn scrolled_line(states: Seq<LineView>, from: int, to: int, n: nat, k: int) -> LineView {
    if from <= to {
        if k < from || k > to {
            states[k]
        } else if k + n <= to {
            states[k + n]
        } else {
            empty_line()
        }
    } else {
        if k < to || k > from {
            states[k]
        } else if k - n >= to {
            states[k - n]
        } else {
            empty_line()
        }
    }
}

/// Scrolling keeps the number of lines, and moves each as `scrolled_line` says.
pub proof fn lemma_scrolled(states: Seq<LineView>, from: int, to: int, n: nat)
    requires
        n > 0 ==> 0 <= from < states.len() && 0 <= to < states.len(),
    ensures
        scrolled(states, from, to, n).len() == states.len(),
        forall|k: int| 0 <= k < states.len() ==> #[trigger] scrolled(states, from, to, n)[k] == scrolled_line(states, from, to, n, k),
    decreases n,
{
    if n > 0 {
        let next = states.remove(from).insert(to, empty_line());
        lemma_scrolled(next, from, to, (n - 1) as nat);
        assert forall|k: int| 0 <= k < states.len() implies #[trigger] scrolled(states, from, to, n)[k] == scrolled_line(states, from, to, n, k) by {
            assert(scrolled(states, from, to, n) == scrolled(next, from, to, (n - 1) as nat));
            if from <= to {
                if k < from || k > to {
                    assert(next[k] == states[k]);
                } else if k + n <= to {
                    assert(next[k + n - 1] == states[k + n]);
                } else if k + (n - 1) <= to {
                    assert(next[k + n - 1] == empty_line());
                }
            } else {
                if k < to || k > from {
                    assert(next[k] == states[k]);
                } else if k - n >= to {
                    assert(next[k - (n - 1)] == states[k - n]);
                } else if k - (n - 1) >= to {
                    assert(next[k - (n - 1)] == empty_line());
                }
            }
        }
    }
}

/// Keeps the highlights of the lines of a document.
pub struct SyntaxHighlighter {
    highlighted_lines: Vec<HighlightedLine>,
}

impl SyntaxHighlighter {
    /// The states of the lines.
    pub closed spec fn lines(&self) -> Seq<LineView> {
        views(self.highlighted_lines@)
    }

    pub fn new() -> (r: Self)
        ensures
            r.lines() == Seq::<LineView>::empty(),
    {
        let r = Self { highlighted_lines: Vec::new() };
        proof {
            assert(r.lines() =~= Seq::<LineView>::empty());
        }
        r
    }

    /// Empties every line.
    pub fn clear(&mut self)
        ensures
            final(self).lines().len() == old(self).lines().len(),
            forall|y: int| 0 <= y < final(self).lines().len() ==> #[trigger] final(self).lines()[y] == empty_line(),
    {
        let mut y: usize = 0;
        while y < self.highlighted_lines.len()
            invariant
                y <= self.highlighted_lines@.len(),
                self.highlighted_lines@.len() == old(self).highlighted_lines@.len(),
                forall|j: int| 0 <= j < y ==> (#[trigger] self.highlighted_lines@[j])@ == empty_line(),
            decreases self.highlighted_lines@.len() - y,
        {
            self.highlighted_lines[y].clear();
            y = y + 1;
        }
    }

    /// Highlights the lines `start_y` to `end_y` of `lines` with `syntax`, each after the
    /// state the line before it was left in, and keeps a state for every line of `lines`.
    pub fn update(&mut self, lines: &[String], syntax: &Syntax, start_y: usize, end_y: usize)
        requires
            update_spec(old(self).lines(), texts_of(lines@), syntax, start_y, end_y) is Some,
        ensures
            final(self).lines() == update_spec(old(self).lines(), texts_of(lines@), syntax, start_y, end_y)->0,
            tokens_forward(syntax) ==> forall|z: int|
                start_y <= z <= end_y && z < lines@.len() ==> tiles(#[trigger] final(self).lines()[z].0, blen(lines@[z]@)),
    {
        update_lines(&mut self.highlighted_lines, lines, syntax, start_y, end_y);
        proof {
            assert forall|z: int| start_y <= z <= end_y && z < lines@.len() && tokens_forward(syntax) implies tiles(
                #[trigger] self.lines()[z].0,
                blen(lines@[z]@),
            ) by {
                assert(tiles(self.highlighted_lines@[z]@.0, blen(lines@[z]@)));
            }
        }
    }

    /// Does what `update` does where that comes to an end, and says whether it did;
    /// otherwise leaves the states as they were.
    pub fn try_update(&mut self, lines: &[String], syntax: &Syntax, start_y: usize, end_y: usize) -> (done: bool)
        ensures
            done == update_spec(old(self).lines(), texts_of(lines@), syntax, start_y, end_y) is Some,
            done ==> final(self).lines() == update_spec(
                old(self).lines(),
                texts_of(lines@),
                syntax,
                start_y,
                end_y,
            )->0,
            !done ==> final(self).lines() == old(self).lines(),
            done && tokens_forward(syntax) ==> forall|z: int|
                start_y <= z <= end_y && z < lines@.len() ==> tiles(#[trigger] final(self).lines()[z].0, blen(lines@[z]@)),
    {
        let mut copy: Vec<HighlightedLine> = Vec::new();
        let mut y: usize = 0;
        while y < self.highlighted_lines.len()
            invariant
                y <= self.highlighted_lines@.len(),
                views(copy@) == views(self.highlighted_lines@.subrange(0, y as int)),
            decreases self.highlighted_lines@.len() - y,
        {
            let ghost before = copy@;
            let line_copy = self.highlighted_lines[y].copy();
            copy.push(line_copy);
            proof {
                lemma_views_push(before, line_copy);
                lemma_views_push(self.highlighted_lines@.subrange(0, y as int), self.highlighted_lines@[y as int]);
                assert(self.highlighted_lines@.subrange(0, y as int).push(self.highlighted_lines@[y as int])
                    =~= self.highlighted_lines@.subrange(0, y + 1));
            }
            y = y + 1;
        }
        proof {
            assert(self.highlighted_lines@.subrange(0, y as int) =~= self.highlighted_lines@);
        }
        if update_lines(&mut copy, lines, syntax, start_y, end_y) {
            self.highlighted_lines = copy;
            proof {
                assert forall|z: int| start_y <= z <= end_y && z < lines@.len() && tokens_forward(syntax) implies tiles(
                    #[trigger] self.lines()[z].0,
                    blen(lines@[z]@),
                ) by {
                    assert(tiles(self.highlighted_lines@[z]@.0, blen(lines@[z]@)));
                }
            }
            true
        } else {
            false
        }
    }

    /// Highlights line `y` from the terminal colors of its cells.
    pub fn highlight_line_from_terminal_colors(
        &mut self,
        colors: &[(TerminalHighlightKind, TerminalHighlightKind)],
        y: usize,
    )
        requires
            y < usize::MAX,
        ensures
            final(self).lines() == grown(old(self).lines(), y + 1).update(y as int, terminal_line(colors@)),
    {
        let ghost old_lines = self.lines();
        while self.highlighted_lines.len() <= y
            invariant
                y < usize::MAX,
                views(self.highlighted_lines@) == grown(old_lines, self.highlighted_lines@.len() as int),
                old_lines.len() <= self.highlighted_lines@.len(),
                self.highlighted_lines@.len() <= y + 1 || self.highlighted_lines@.len() == old_lines.len(),
            decreases y + 1 - self.highlighted_lines@.len(),
        {
            let ghost before = self.highlighted_lines@;
            let fresh = HighlightedLine::new();
            self.highlighted_lines.push(fresh);
            proof {
                lemma_views_push(before, fresh);
                lemma_grown_push(old_lines, before.len() as int);
            }
        }
        let ghost grown_lines = views(self.highlighted_lines@);
        proof {
            assert(grown_lines =~= grown(old_lines, y + 1));
        }
        let mut highlighted_line = HighlightedLine::new();
        std::mem::swap(&mut highlighted_line, &mut self.highlighted_lines[y]);
        highlighted_line.clear();
        let mut x: usize = 0;
        while x < colors.len()
            invariant
                x <= colors@.len(),
                highlighted_line@ == terminal_line(colors@.subrange(0, x as int)),
            decreases colors@.len() - x,
        {
            let (foreground, background) = colors[x];
            highlighted_line.push(
                Highlight {
                    start: x,
                    end: x + 1,
                    foreground: HighlightKind::Terminal(foreground),
                    background: Some(HighlightKind::Terminal(background)),
                },
            );
            proof {
                let pre = colors@.subrange(0, x + 1);
                assert(pre.drop_last() =~= colors@.subrange(0, x as int));
                assert(pre.last() == colors@[x as int]);
            }
            x = x + 1;
        }
        proof {
            assert(colors@.subrange(0, x as int) =~= colors@);
        }
        std::mem::swap(&mut highlighted_line, &mut self.highlighted_lines[y]);
        proof {
            assert(self.lines() =~= grown_lines.update(y as int, terminal_line(colors@)));
        }
    }

    /// Moves `|delta_y|` emptied lines through the region from `start` to `end` (kept within
    /// the lines): downwards the line at `start` goes to `end`, upwards the line at `end` goes
    /// to `start`.
    pub fn scroll_highlighted_lines(&mut self, start: usize, end: usize, delta_y: isize)
        requires
            delta_y != isize::MIN,
            delta_y == 0 || start < old(self).lines().len(),
        ensures
            ({
                let last = if old(self).lines().len() > 0 { old(self).lines().len() - 1 } else { 0 };
                let e = if end <= last { end as int } else { last };
                let (from, to) = if delta_y < 0 { (e, start as int) } else { (start as int, e) };
                let n = if delta_y < 0 { -delta_y } else { delta_y as int };
                &&& final(self).lines() == scrolled(old(self).lines(), from, to, n as nat)
                &&& final(self).lines().len() == old(self).lines().len()
                &&& forall|k: int| 0 <= k < old(self).lines().len() ==> #[trigger] final(self).lines()[k]
                    == scrolled_line(old(self).lines(), from, to, n as nat, k)
            }),
    {
        let last = self.highlighted_lines.len().saturating_sub(1);
        let end = if end <= last { end } else { last };
        let (from, to) = if delta_y < 0 { (end, start) } else { (start, end) };
        let n: usize = if delta_y < 0 { (-delta_y) as usize } else { delta_y as usize };
        let ghost len = self.highlighted_lines@.len();
        let mut k: usize = 0;
        while k < n
            invariant
                k <= n,
                self.highlighted_lines@.len() == len,
                n > 0 ==> from < len && to < len,
                scrolled(old(self).lines(), from as int, to as int, n as nat) == scrolled(
                    self.lines(),
                    from as int,
                    to as int,
                    (n - k) as nat,
                ),
            decreases n - k,
        {
            let ghost before = self.lines();
            let mut highlighted_line = self.highlighted_lines.remove(from);
            highlighted_line.clear();
            self.highlighted_lines.insert(to, highlighted_line);
            proof {
                assert(self.lines() =~= before.remove(from as int).insert(to as int, empty_line()));
            }
            k = k + 1;
        }
        proof {
            lemma_scrolled(old(self).lines(), from as int, to as int, n as nat);
        }
    }

    /// The states of the lines.
    pub fn highlighted_lines(&self) -> (r: &[HighlightedLine])
        ensures
            views(r@) == self.lines(),
    {
        self.highlighted_lines.as_slice()
    }
}

} // verus!
