use vstd::prelude::*;
use vstd::utf8::*;
use std::path::{Path, PathBuf};
use crate::position::{Position, pos_le, pos_lt};
use super::strs::{
    bytes, string_bytes, boundary, lemma_boundary_concat, lemma_encode_injective, lemma_str_valid,
    lemma_space_bytes, lemma_as_str, lemma_newline_bytes, sub_str, str_len,
    push_str, push_newline, push_return,
};
use super::grapheme::{
    CharCursor, CharIterator, char_at, char_ending_at, is_next_char_boundary, is_prev_char_boundary,
    GraphemeCursor, at, grapheme_end, grapheme_bytes, cursor_next, cursor_next_ok,
    unicode_prev_boundary, CharClass, all_in_class, is_whitespace, is_alphanumeric, is_single_byte,
};
use super::pattern::{blen, can_step};
use super::line_pool::LinePool;
use super::selection::{Selection, union_spec, selection_trimmed};
use super::cursor::{Cursor, selection_of};
use super::cursor_index::{CursorIndex, CursorIndices};
use super::syntax::Syntax;
use super::syntax_highlighter::{
    SyntaxHighlighter, HighlightedLine, LineView, TerminalHighlightKind, texts_of, update_spec, grown,
    terminal_line, scrolled, views,
};
use super::tokenizer::{Tokenizer, lines_words};
use super::trie::Trie;
use super::diff::{DiffEdit, diff_spec, line_diff, line_diff_spec, myers_diff, ascii_string};
use super::grapheme_category::{GraphemeCategory, grapheme_category_of};
use super::strs::{insert_str_at, truncate_string, drain_range, string_from};

verus! {

broadcast use vstd::utf8::encode_utf8_valid_utf8, vstd::utf8::encode_utf8_decode_utf8;

#[verifier::external_type_specification]
#[verifier::external_body]
pub struct ExPathBuf(PathBuf);

#[verifier::external_type_specification]
#[verifier::external_body]
pub struct ExPath(Path);

/// The bytes of the path that a path buffer holds.
pub uninterp spec fn path_buf_bytes(path: &PathBuf) -> Seq<u8>;

/// The bytes of a path.
pub uninterp spec fn path_bytes(path: &Path) -> Seq<u8>;

/// Calls `PathBuf::as_path`: the path the buffer holds, borrowed. Claimed: the borrowed path
/// has the same bytes as the buffer.
#[verifier::external_body]
fn as_path(path: &PathBuf) -> (r: &Path)
    ensures
        path_bytes(r) == path_buf_bytes(path),
{
    path.as_path()
}

/// What a document is for.
#[derive(PartialEq, Eq, Clone, Copy, Debug, Structural)]
pub enum DocKind {
    MultiLine,
    SingleLine,
    Output,
}

/// Where a document's text is kept: nowhere (`NoPath`), only in memory under a name, or in a
/// file.
#[derive(Debug)]
pub enum DocPath {
    NoPath,
    InMemory(PathBuf),
    OnDrive(PathBuf),
}

impl DocPath {
    /// The document's path, wherever it is kept.
    pub fn some(&self) -> (r: Option<&Path>)
        ensures
            r is Some <==> !(self is NoPath),
            self matches DocPath::InMemory(p) ==> r matches Some(q) && path_bytes(q) == path_buf_bytes(&p),
            self matches DocPath::OnDrive(p) ==> r matches Some(q) && path_bytes(q) == path_buf_bytes(&p),
    {
        match self {
            DocPath::NoPath => None,
            DocPath::InMemory(path) => Some(as_path(path)),
            DocPath::OnDrive(path) => Some(as_path(path)),
        }
    }

    pub fn is_none(&self) -> (r: bool)
        ensures
            r == (self is NoPath),
    {
        match self {
            DocPath::NoPath => true,
            _ => false,
        }
    }

    /// The document's path where it is kept in a file.
    pub fn on_drive(&self) -> (r: Option<&Path>)
        ensures
            r is Some <==> self is OnDrive,
            self matches DocPath::OnDrive(p) ==> r matches Some(q) && path_bytes(q) == path_buf_bytes(&p),
    {
        match self {
            DocPath::OnDrive(path) => Some(as_path(path)),
            _ => None,
        }
    }
}

/// The bytes of each line.
pub open spec fn line_bytes(lines: Seq<String>) -> Seq<Seq<u8>> {
    lines.map_values(|l: String| encode_utf8(l@))
}

/// The position within the document nearest to `p`: on the last line at most, and at most
/// at the end of its line.
pub open spec fn clamp(ls: Seq<Seq<u8>>, p: Position) -> Position {
    let y = if p.y < ls.len() { p.y } else { (ls.len() - 1) as usize };
    let x = if p.x <= ls[y as int].len() { p.x } else { ls[y as int].len() as usize };
    Position { x, y }
}

/// A position within the document that starts a character or ends its line.
pub open spec fn on_char(ls: Seq<Seq<u8>>, p: Position) -> bool {
    p.y < ls.len() && p.x <= ls[p.y as int].len() && boundary(ls[p.y as int], p.x as int)
}

/// The lines from `a` up to `b`, each followed by a line feed.
pub open spec fn joined_lines(ls: Seq<Seq<u8>>, a: int, b: int) -> Seq<u8>
    decreases b - a,
{
    if a < b {
        ls[a] + seq![0x0Au8] + joined_lines(ls, a + 1, b)
    } else {
        Seq::empty()
    }
}

/// Joining one more line.
pub proof fn lemma_joined_push(ls: Seq<Seq<u8>>, a: int, b: int)
    requires
        a <= b,
    ensures
        joined_lines(ls, a, b + 1) == joined_lines(ls, a, b) + ls[b] + seq![0x0Au8],
    decreases b - a,
{
    if a < b {
        lemma_joined_push(ls, a + 1, b);
        assert(joined_lines(ls, a, b + 1) =~= joined_lines(ls, a, b) + ls[b] + seq![0x0Au8]);
    } else {
        assert(joined_lines(ls, a + 1, b + 1) =~= Seq::<u8>::empty());
        assert(joined_lines(ls, a, b + 1) =~= joined_lines(ls, a, b) + ls[b] + seq![0x0Au8]);
    }
}

/// The text between two positions, with a line feed between lines.
pub open spec fn text_between(ls: Seq<Seq<u8>>, s: Position, e: Position) -> Seq<u8> {
    if s.y == e.y {
        ls[s.y as int].subrange(s.x as int, e.x as int)
    } else {
        ls[s.y as int].subrange(s.x as int, ls[s.y as int].len() as int) + seq![0x0Au8]
            + joined_lines(ls, s.y + 1, e.y as int) + ls[e.y as int].subrange(0, e.x as int)
    }
}

/// Where a position goes when the text from `start` to `end` is put in.
pub open spec fn shifted_by_insert(start: Position, end: Position, p: Position) -> Position {
    if start.y == p.y && start.x <= p.x {
        Position { x: (p.x + end.x - start.x) as usize, y: (p.y + end.y - start.y) as usize }
    } else if start.y < p.y {
        Position { x: p.x, y: (p.y + end.y - start.y) as usize }
    } else {
        p
    }
}

/// Where a position goes when the text from `start` to `end` is taken out.
pub open spec fn shifted_by_delete(start: Position, end: Position, p: Position) -> Position {
    let ie = if pos_le(end, p) { end } else { p };
    if pos_le(ie, start) {
        p
    } else if ie.y == p.y && ie.x <= p.x {
        Position { x: (p.x - (ie.x - start.x)) as usize, y: (p.y - (ie.y - start.y)) as usize }
    } else if ie.y < p.y {
        Position { x: p.x, y: (p.y - (ie.y - start.y)) as usize }
    } else {
        p
    }
}

/// The lines after putting in the graphemes of `t` from byte `i` on at `pos`, and where the
/// text put in ends. A carriage return is left out; a line feed (alone or after a carriage
/// return) splits the line, unless the document holds a single line, where it is left out.
pub open spec fn insert_from(ls: Seq<Seq<u8>>, pos: Position, t: Seq<char>, i: usize, single_line: bool) -> (Seq<Seq<u8>>, Position)
    decreases blen(t) - i,
{
    if can_step(t, i) {
        let e = grapheme_end(t, i);
        let g = grapheme_bytes(t, i);
        let l = ls[pos.y as int];
        if g == seq![0x0Du8] {
            insert_from(ls, pos, t, e, single_line)
        } else if g == seq![0x0Au8] || g == seq![0x0Du8, 0x0Au8] {
            if single_line {
                insert_from(ls, pos, t, e, single_line)
            } else {
                let ls2 = ls.update(pos.y as int, l.subrange(0, pos.x as int)).insert(
                    pos.y + 1,
                    l.subrange(pos.x as int, l.len() as int),
                );
                insert_from(ls2, Position { x: 0, y: (pos.y + 1) as usize }, t, e, single_line)
            }
        } else {
            let ls2 = ls.update(pos.y as int, l.subrange(0, pos.x as int) + g + l.subrange(pos.x as int, l.len() as int));
            insert_from(ls2, Position { x: (pos.x + g.len()) as usize, y: pos.y }, t, e, single_line)
        }
    } else {
        (ls, pos)
    }
}

/// The bytes that putting in the graphemes of `t` from byte `i` on adds to a document: a
/// carriage return is left out, a line feed (alone or after a carriage return) stands as a
/// line feed, or is left out where the document holds a single line.
pub open spec fn inserted_bytes(t: Seq<char>, i: usize, single_line: bool) -> Seq<u8>
    decreases blen(t) - i,
{
    if can_step(t, i) {
        let e = grapheme_end(t, i);
        let g = grapheme_bytes(t, i);
        if g == seq![0x0Du8] {
            inserted_bytes(t, e, single_line)
        } else if g == seq![0x0Au8] || g == seq![0x0Du8, 0x0Au8] {
            if single_line {
                inserted_bytes(t, e, single_line)
            } else {
                seq![0x0Au8] + inserted_bytes(t, e, single_line)
            }
        } else {
            g + inserted_bytes(t, e, single_line)
        }
    } else {
        Seq::empty()
    }
}

/// The text between a position and the end of a range, split at a later position on the
/// same line.
pub proof fn lemma_text_between_split(ls: Seq<Seq<u8>>, q: Position, m: Position, e: Position)
    requires
        q.y == m.y,
        q.x <= m.x,
        pos_le(m, e),
        e.y < ls.len(),
        m.x <= ls[m.y as int].len(),
        e.x <= ls[e.y as int].len(),
    ensures
        text_between(ls, q, e) == ls[q.y as int].subrange(q.x as int, m.x as int) + text_between(ls, m, e),
{
    let l = ls[q.y as int];
    if e.y == q.y {
        assert(text_between(ls, q, e) =~= l.subrange(q.x as int, m.x as int) + text_between(ls, m, e));
    } else {
        assert(l.subrange(q.x as int, l.len() as int) =~= l.subrange(q.x as int, m.x as int) + l.subrange(
            m.x as int,
            l.len() as int,
        ));
        assert(text_between(ls, q, e) =~= l.subrange(q.x as int, m.x as int) + text_between(ls, m, e));
    }
}

/// What putting in text does to the lines: those before the position and its line up to
/// it stay, the text put in lies between the position and the end it returns, and after
/// that end come the rest of the position's line and the lines after it.
#[verifier::spinoff_prover]
pub proof fn lemma_insert_from(ls: Seq<Seq<u8>>, q: Position, t: Seq<char>, i: usize, single_line: bool)
    requires
        i <= blen(t),
        q.y < ls.len(),
        q.x <= ls[q.y as int].len(),
        ls[q.y as int].len() + (blen(t) - i) <= usize::MAX,
        ls.len() + (blen(t) - i) <= usize::MAX,
    ensures
        ({
            let (ls2, e) = insert_from(ls, q, t, i, single_line);
            &&& pos_le(q, e)
            &&& e.y < ls2.len()
            &&& e.x <= ls2[e.y as int].len()
            &&& q.x <= ls2[q.y as int].len()
            &&& ls2.len() == ls.len() + (e.y - q.y)
            &&& ls2.subrange(0, q.y as int) == ls.subrange(0, q.y as int)
            &&& ls2[q.y as int].subrange(0, q.x as int) == ls[q.y as int].subrange(0, q.x as int)
            &&& ls2[e.y as int].subrange(e.x as int, ls2[e.y as int].len() as int) == ls[q.y as int].subrange(
                q.x as int,
                ls[q.y as int].len() as int,
            )
            &&& ls2.subrange(e.y + 1, ls2.len() as int) == ls.subrange(q.y + 1, ls.len() as int)
            &&& text_between(ls2, q, e) == inserted_bytes(t, i, single_line)
            &&& e.y - q.y <= blen(t) - i
            &&& forall|k: int| q.y <= k <= e.y ==> #[trigger] ls2[k].len() <= ls[q.y as int].len() + (blen(t) - i)
        }),
    decreases blen(t) - i,
{
    let l = ls[q.y as int];
    if can_step(t, i) {
        let en = grapheme_end(t, i);
        let g = grapheme_bytes(t, i);
        assert(g.len() == en - i);
        if g == seq![0x0Du8] || ((g == seq![0x0Au8] || g == seq![0x0Du8, 0x0Au8]) && single_line) {
            lemma_insert_from(ls, q, t, en, single_line);
        } else if g == seq![0x0Au8] || g == seq![0x0Du8, 0x0Au8] {
            let ls1 = ls.update(q.y as int, l.subrange(0, q.x as int)).insert(
                q.y + 1,
                l.subrange(q.x as int, l.len() as int),
            );
            let q1 = Position { x: 0, y: (q.y + 1) as usize };
            lemma_insert_from(ls1, q1, t, en, single_line);
            let (ls2, e) = insert_from(ls1, q1, t, en, single_line);
            assert(insert_from(ls, q, t, i, single_line) == (ls2, e));
            assert(ls2.subrange(0, q1.y as int)[q.y as int] == ls1.subrange(0, q1.y as int)[q.y as int]);
            assert(ls2[q.y as int] == l.subrange(0, q.x as int));
            assert(ls2.subrange(0, q.y as int) =~= ls2.subrange(0, q1.y as int).subrange(0, q.y as int));
            assert(ls.subrange(0, q.y as int) =~= ls1.subrange(0, q1.y as int).subrange(0, q.y as int));
            assert(ls2[q.y as int].subrange(0, q.x as int) =~= l.subrange(0, q.x as int));
            assert(ls1[q1.y as int] == l.subrange(q.x as int, l.len() as int));
            assert(ls1[q1.y as int].subrange(0, ls1[q1.y as int].len() as int) =~= ls1[q1.y as int]);
            assert(ls1.subrange(q1.y + 1, ls1.len() as int) =~= ls.subrange(q.y + 1, ls.len() as int));
            // the text: a line feed, then what follows
            let l2 = ls2[q.y as int];
            assert(l2.subrange(q.x as int, l2.len() as int) =~= Seq::<u8>::empty());
            if e.y == q1.y {
                assert(joined_lines(ls2, q1.y as int, e.y as int) =~= Seq::<u8>::empty());
                assert(text_between(ls2, q, e) =~= seq![0x0Au8] + text_between(ls2, q1, e));
            } else {
                let m = ls2[q1.y as int];
                assert(m.subrange(0, m.len() as int) =~= m);
                assert(joined_lines(ls2, q1.y as int, e.y as int) == m + seq![0x0Au8] + joined_lines(
                    ls2,
                    q1.y + 1,
                    e.y as int,
                ));
                assert(text_between(ls2, q, e) =~= seq![0x0Au8] + text_between(ls2, q1, e));
            }
            assert forall|k: int| q.y <= k <= e.y implies #[trigger] ls2[k].len() <= l.len() + (blen(t) - i) by {
                if k > q.y {
                    assert(q1.y <= k <= e.y);
                }
            }
        } else {
            let ls1 = ls.update(q.y as int, l.subrange(0, q.x as int) + g + l.subrange(q.x as int, l.len() as int));
            let q1 = Position { x: (q.x + g.len()) as usize, y: q.y };
            let l1 = ls1[q.y as int];
            assert(l1.len() == l.len() + g.len());
            lemma_insert_from(ls1, q1, t, en, single_line);
            let (ls2, e) = insert_from(ls1, q1, t, en, single_line);
            assert(insert_from(ls, q, t, i, single_line) == (ls2, e));
            assert(ls1.subrange(0, q.y as int) =~= ls.subrange(0, q.y as int));
            assert(ls1.subrange(q.y + 1, ls1.len() as int) =~= ls.subrange(q.y + 1, ls.len() as int));
            let l2 = ls2[q.y as int];
            assert(l1.subrange(0, q1.x as int) =~= l.subrange(0, q.x as int) + g);
            assert(l2.subrange(0, q.x as int) =~= l2.subrange(0, q1.x as int).subrange(0, q.x as int));
            assert(l2.subrange(0, q.x as int) =~= l.subrange(0, q.x as int));
            assert(l1.subrange(q1.x as int, l1.len() as int) =~= l.subrange(q.x as int, l.len() as int));
            assert(l2.subrange(q.x as int, q1.x as int) =~= l2.subrange(0, q1.x as int).subrange(q.x as int, q1.x as int));
            assert(l2.subrange(q.x as int, q1.x as int) =~= g);
            lemma_text_between_split(ls2, q, q1, e);
            assert forall|k: int| q.y <= k <= e.y implies #[trigger] ls2[k].len() <= l.len() + (blen(t) - i) by {
                assert(q1.y <= k <= e.y);
            }
        }
    } else {
        assert(insert_from(ls, q, t, i, single_line) == (ls, q));
        assert(ls[q.y as int].subrange(q.x as int, q.x as int) =~= Seq::<u8>::empty());
    }
}

/// Text put in at a position is read back, as it was put in, between that position and the
/// end that putting it in returns.
pub proof fn law_read_after_insert(ls: Seq<Seq<u8>>, p: Position, t: Seq<char>, single_line: bool)
    requires
        p.y < ls.len(),
        p.x <= ls[p.y as int].len(),
        ls[p.y as int].len() + blen(t) <= usize::MAX,
        ls.len() + blen(t) <= usize::MAX,
    ensures
        ({
            let (ls2, e) = insert_from(ls, p, t, 0, single_line);
            text_between(ls2, p, e) == inserted_bytes(t, 0, single_line)
        }),
{
    lemma_insert_from(ls, p, t, 0, single_line);
}

/// Taking out the text from a position to the end that putting text in there returned gives
/// back the lines as they were before.
pub proof fn law_delete_after_insert(ls: Seq<Seq<u8>>, p: Position, t: Seq<char>, single_line: bool)
    requires
        p.y < ls.len(),
        p.x <= ls[p.y as int].len(),
        ls[p.y as int].len() + blen(t) <= usize::MAX,
        ls.len() + blen(t) <= usize::MAX,
    ensures
        ({
            let (ls2, e) = insert_from(ls, p, t, 0, single_line);
            pos_le(p, e) && delete_lines(ls2, p, e) == ls
        }),
{
    lemma_insert_from(ls, p, t, 0, single_line);
    let (ls2, e) = insert_from(ls, p, t, 0, single_line);
    let l = ls[p.y as int];
    let l2 = ls2[p.y as int];
    let le = ls2[e.y as int];
    let pre = l.subrange(0, p.x as int);
    let suf = l.subrange(p.x as int, l.len() as int);
    assert(l =~= pre + suf);
    assert(ls2.subrange(0, p.y as int) =~= ls.subrange(0, p.y as int));
    if e == p {
        assert(l2 =~= l2.subrange(0, p.x as int) + l2.subrange(p.x as int, l2.len() as int));
        assert(ls2 =~= ls.subrange(0, p.y as int).push(l) + ls.subrange(p.y + 1, ls.len() as int));
        assert(ls =~= ls.subrange(0, p.y as int).push(l) + ls.subrange(p.y + 1, ls.len() as int));
    } else if e.y == p.y {
        assert(l2.subrange(0, p.x as int) + l2.subrange(e.x as int, l2.len() as int) =~= l);
        assert forall|k: int| 0 <= k < ls.len() && k != p.y implies ls2[k] == ls[k] by {
            if k < p.y {
                assert(ls2.subrange(0, p.y as int)[k] == ls.subrange(0, p.y as int)[k]);
            } else {
                assert(ls2.subrange(e.y + 1, ls2.len() as int)[k - p.y - 1] == ls.subrange(p.y + 1, ls.len() as int)[k - p.y - 1]);
            }
        }
        assert(delete_lines(ls2, p, e) =~= ls);
    } else {
        assert(ls2[p.y as int].subrange(0, p.x as int) + le.subrange(e.x as int, le.len() as int) =~= l);
        assert(ls =~= ls.subrange(0, p.y as int).push(l) + ls.subrange(p.y + 1, ls.len() as int));
        assert(delete_lines(ls2, p, e) =~= ls);
    }
}

/// The character boundary of `b` that follows byte `i`.
pub open spec fn next_char_end(b: Seq<u8>, i: int) -> int {
    choose|j: int| is_next_char_boundary(b, i, j)
}

/// One character boundary follows `i`: the first after it.
pub proof fn lemma_next_char_end(b: Seq<u8>, i: int, j: int)
    requires
        is_next_char_boundary(b, i, j),
    ensures
        next_char_end(b, i) == j,
{
    let k = next_char_end(b, i);
    assert(is_next_char_boundary(b, i, k));
    if k < j {
        assert(!boundary(b, k));
    } else if k > j {
        assert(!boundary(b, j));
    }
}

/// How many bytes of `tb` a forward search has matched after the document's next character
/// `c`, from `m` matched: one character more if `c` comes next in `tb`; else, where some
/// were matched, the first character of `tb` if `c` is that; else none.
pub open spec fn match_step(tb: Seq<u8>, m: int, c: Seq<u8>) -> int {
    if tb.subrange(m, next_char_end(tb, m)) == c {
        next_char_end(tb, m)
    } else if m > 0 && tb.subrange(0, next_char_end(tb, 0)) == c {
        next_char_end(tb, 0)
    } else {
        0
    }
}

/// How a forward search ends: at the start of a match, counted back from where it ends in
/// its last line; with no match; or with a match that ends in a line sooner than its own
/// length, where that count would fall before the line's start.
pub enum SearchOutcome {
    Found(Position),
    NotFound,
    BeforeLineStart,
}

/// The position a forward search returns.
pub open spec fn found_at(o: SearchOutcome) -> Option<Position> {
    match o {
        SearchOutcome::Found(p) => Some(p),
        _ => None,
    }
}

/// A forward search for the bytes `tb`, character by character from byte `x` of line `y`
/// with `m` bytes matched so far (a match goes on from one line into the next): at the end
/// of a line it goes on at the next, after the last line at the first if `wrap`, and ends
/// on coming back to line `start_y`, or after `n` more lines.
pub open spec fn search_from(
    ls: Seq<Seq<u8>>,
    tb: Seq<u8>,
    y: int,
    x: int,
    m: int,
    start_y: int,
    wrap: bool,
    n: nat,
) -> SearchOutcome
    decreases n, ls[y].len() - x,
{
    let l = ls[y];
    let ce = next_char_end(l, x);
    if x < l.len() && x < ce <= l.len() {
        let m2 = match_step(tb, m, l.subrange(x, ce));
        if m2 >= tb.len() {
            if ce >= tb.len() {
                SearchOutcome::Found(Position { x: (ce - tb.len()) as usize, y: y as usize })
            } else {
                SearchOutcome::BeforeLineStart
            }
        } else {
            search_from(ls, tb, y, ce, m2, start_y, wrap, n)
        }
    } else {
        let y2 = if y + 1 < ls.len() {
            y + 1
        } else if wrap {
            0
        } else {
            -1
        };
        if y2 < 0 || y2 == start_y || n == 0 {
            SearchOutcome::NotFound
        } else {
            search_from(ls, tb, y2, 0, m, start_y, wrap, (n - 1) as nat)
        }
    }
}

/// The search for `tb` from `p`, as the document's forward search makes it.
pub open spec fn search_forward_from(ls: Seq<Seq<u8>>, tb: Seq<u8>, p: Position, wrap: bool) -> SearchOutcome {
    search_from(ls, tb, p.y as int, p.x as int, 0, p.y as int, wrap, (ls.len() - 1) as nat)
}

/// One grapheme right of `p`: the next grapheme boundary of its line, else the start of the
/// next line, else `p` itself.
pub open spec fn step_right(ls: Seq<Seq<u8>>, lc: Seq<Seq<char>>, p: Position) -> Position {
    match cursor_next(lc[p.y as int], p.x, ls[p.y as int].len() as usize) {
        Some(x) => Position { x, y: p.y },
        None => if p.y + 1 < ls.len() {
            Position { x: 0, y: (p.y + 1) as usize }
        } else {
            p
        },
    }
}

/// One grapheme left of `p`: the previous grapheme boundary of its line, else the end of the
/// line before, else `p` itself.
pub open spec fn step_left(ls: Seq<Seq<u8>>, lc: Seq<Seq<char>>, p: Position) -> Position {
    match unicode_prev_boundary(lc[p.y as int], p.x, ls[p.y as int].len() as usize) {
        Some(x) => Position { x, y: p.y },
        None => if p.y > 0 {
            Position { x: ls[p.y - 1].len() as usize, y: (p.y - 1) as usize }
        } else {
            p
        },
    }
}

/// `n` graphemes right (or left) of `p`.
pub open spec fn steps(ls: Seq<Seq<u8>>, lc: Seq<Seq<char>>, p: Position, n: nat, right: bool) -> Position
    decreases n,
{
    if n == 0 {
        p
    } else {
        let q = if right { step_right(ls, lc, p) } else { step_left(ls, lc, p) };
        steps(ls, lc, q, (n - 1) as nat, right)
    }
}

/// Where no step moves, no number of steps does.
pub proof fn lemma_steps_stay(ls: Seq<Seq<u8>>, lc: Seq<Seq<char>>, p: Position, n: nat, right: bool)
    requires
        (if right { step_right(ls, lc, p) } else { step_left(ls, lc, p) }) == p,
    ensures
        steps(ls, lc, p, n, right) == p,
    decreases n,
{
    if n > 0 {
        lemma_steps_stay(ls, lc, p, (n - 1) as nat, right);
    }
}

/// Whether moving `dy` lines from `p` (kept within the document) lands on a line of it.
pub open spec fn lands_within(ls: Seq<Seq<u8>>, p: Position, dy: int) -> bool {
    let y = clamp(ls, p).y + dy;
    0 <= y < ls.len() && y <= usize::MAX
}

/// Where moving `dy` lines from `p` (kept within the document) lands: the document's start
/// above the first line, its end below the last, and otherwise at most at the end of the line
/// landed on.
pub open spec fn moved_vertically(ls: Seq<Seq<u8>>, p: Position, dy: int) -> Position {
    let c = clamp(ls, p);
    let y = c.y + dy;
    if y < 0 || y > usize::MAX {
        Position { x: 0, y: 0 }
    } else if y >= ls.len() {
        Position { x: ls.last().len() as usize, y: (ls.len() - 1) as usize }
    } else if dy != 0 && c.x > ls[y].len() {
        Position { x: ls[y].len() as usize, y: y as usize }
    } else {
        Position { x: c.x, y: y as usize }
    }
}

/// Where moving `dy` lines and then `dx` graphemes from `p` lands.
pub open spec fn moved(ls: Seq<Seq<u8>>, lc: Seq<Seq<char>>, p: Position, dx: int, dy: int) -> Position {
    let v = moved_vertically(ls, p, dy);
    if !lands_within(ls, p, dy) {
        v
    } else if dx < 0 {
        steps(ls, lc, v, (-dx) as nat, false)
    } else {
        steps(ls, lc, v, dx as nat, true)
    }
}

/// The grapheme at `p`, or a line feed at its line's end.
pub open spec fn grapheme_at(ls: Seq<Seq<u8>>, lc: Seq<Seq<char>>, p: Position) -> Seq<u8> {
    if p.x == ls[p.y as int].len() {
        seq![0x0Au8]
    } else {
        grapheme_bytes(lc[p.y as int], p.x)
    }
}

/// Back from `s` over at most `k` more spaces, one grapheme at a time, stopping before anything
/// else.
pub open spec fn spaces_back(ls: Seq<Seq<u8>>, lc: Seq<Seq<char>>, s: Position, k: nat) -> Position
    decreases k,
{
    if k == 0 {
        s
    } else {
        let n = moved(ls, lc, s, -1, 0);
        if grapheme_at(ls, lc, n) == seq![0x20u8] {
            spaces_back(ls, lc, n, (k - 1) as nat)
        } else {
            s
        }
    }
}

/// Where one level of indentation that ends at `end` starts, for an indent `count` graphemes
/// wide: after a space, back over the spaces down to the last multiple of `count` before
/// `end.x` (stopping before anything else); after a tab, back over the tab; else at `end`.
pub open spec fn indent_start(ls: Seq<Seq<u8>>, lc: Seq<Seq<char>>, end: Position, count: usize) -> Position {
    let s = moved(ls, lc, end, -1, 0);
    let g = grapheme_at(ls, lc, s);
    if g == seq![0x20u8] {
        spaces_back(ls, lc, s, ((end.x - 1) % (count as int)) as nat)
    } else if g == seq![0x09u8] {
        s
    } else {
        end
    }
}

/// The state of a document after `n` rounds of putting `g` in at `p` (kept within the lines)
/// and moving `p` one grapheme right, as indenting does.
pub open spec fn indented(
    st: (Seq<Seq<u8>>, Seq<Cursor>, usize, bool),
    p: Position,
    g: Seq<char>,
    n: nat,
    single_line: bool,
    output: bool,
) -> (Seq<Seq<u8>>, Seq<Cursor>, usize, bool)
    decreases n,
{
    if n == 0 {
        st
    } else {
        let (ls, cs, u, dirty) = st;
        let (ls2, cs2) = inserted_at(ls, cs, p, g, single_line, output);
        let st2 = (ls2, cs2, if blen(g) > 0 { marked_from(u, p.y) } else { u }, dirty || blen(g) > 0);
        indented(st2, moved(ls2, chars_of(ls2), p, 1, 0), g, (n - 1) as nat, single_line, output)
    }
}

/// Indenting as `indented` does is defined at every round: `g` goes in on a character, the
/// cursors leave room for it, and the place it went in is still on a character after.
pub open spec fn can_indent(
    st: (Seq<Seq<u8>>, Seq<Cursor>, usize, bool),
    p: Position,
    g: Seq<char>,
    n: nat,
    single_line: bool,
    output: bool,
) -> bool
    decreases n,
{
    n == 0 || {
        let (ls, cs, u, dirty) = st;
        let (ls2, cs2) = inserted_at(ls, cs, p, g, single_line, output);
        let st2 = (ls2, cs2, if blen(g) > 0 { marked_from(u, p.y) } else { u }, dirty || blen(g) > 0);
        &&& on_char(ls, clamp(ls, p))
        &&& !output ==> cursors_fit(cs, blen(g))
        &&& on_char(ls2, clamp(ls2, p))
        &&& can_indent(st2, moved(ls2, chars_of(ls2), p, 1, 0), g, (n - 1) as nat, single_line, output)
    }
}

/// The state of a document after indenting at cursors `0..k`, one after another, each where
/// it stands by then.
pub open spec fn indented_at_cursors(
    st: (Seq<Seq<u8>>, Seq<Cursor>, usize, bool),
    g: Seq<char>,
    n: nat,
    single_line: bool,
    output: bool,
    k: int,
) -> (Seq<Seq<u8>>, Seq<Cursor>, usize, bool)
    decreases k,
{
    if k <= 0 {
        st
    } else {
        let before = indented_at_cursors(st, g, n, single_line, output, k - 1);
        indented(before, before.1[k - 1].position, g, n, single_line, output)
    }
}

/// Indenting at each of cursors `0..k` is defined at every step.
pub open spec fn can_indent_at_cursors(
    st: (Seq<Seq<u8>>, Seq<Cursor>, usize, bool),
    g: Seq<char>,
    n: nat,
    single_line: bool,
    output: bool,
    k: int,
) -> bool
    decreases k,
{
    k <= 0 || (can_indent_at_cursors(st, g, n, single_line, output, k - 1) && {
        let before = indented_at_cursors(st, g, n, single_line, output, k - 1);
        can_indent(before, before.1[k - 1].position, g, n, single_line, output)
    })
}

/// Where indenting at each of `m` cursors is defined, it is at the first `k + 1`.
proof fn lemma_can_indent_prefix(
    st: (Seq<Seq<u8>>, Seq<Cursor>, usize, bool),
    g: Seq<char>,
    n: nat,
    single_line: bool,
    output: bool,
    k: int,
    m: int,
)
    requires
        0 <= k < m,
        can_indent_at_cursors(st, g, n, single_line, output, m),
    ensures
        can_indent_at_cursors(st, g, n, single_line, output, k + 1),
    decreases m,
{
    if k + 1 < m {
        lemma_can_indent_prefix(st, g, n, single_line, output, k, m - 1);
    }
}

/// Where the indentation of line `y` ends: after its leading white space (the start of the
/// line past the last line).
pub open spec fn indent_end(ls: Seq<Seq<u8>>, y: usize) -> Position {
    Position { x: if y < ls.len() { white_prefix_end(chars_of(ls)[y as int], 0) } else { 0 }, y }
}

/// The state of a document after taking out one level of indentation, for an indent `n`
/// graphemes wide, in front of the leading white space of line `y`.
pub open spec fn unindented_line(
    st: (Seq<Seq<u8>>, Seq<Cursor>, usize, bool),
    y: usize,
    n: usize,
    output: bool,
) -> (Seq<Seq<u8>>, Seq<Cursor>, usize, bool) {
    let (ls, cs, u, dirty) = st;
    let end = indent_end(ls, y);
    let a = clamp(ls, indent_start(ls, chars_of(ls), end, n));
    let b = clamp(ls, end);
    (
        delete_lines(ls, a, b),
        if output { cs } else { cursors_shifted_by_delete(cs, a, b) },
        if a != b { marked_from(u, a.y) } else { u },
        dirty || a != b,
    )
}

/// Taking out a level of indentation of line `y` is defined: where it ends is on a character,
/// it does not come after a space at the very start of the document, and the cursors leave
/// room for where it starts.
pub open spec fn can_unindent_line(st: (Seq<Seq<u8>>, Seq<Cursor>, usize, bool), y: usize, n: usize, output: bool) -> bool {
    let (ls, cs, u, dirty) = st;
    let end = indent_end(ls, y);
    &&& n > 0
    &&& on_char(ls, clamp(ls, end))
    &&& grapheme_at(ls, chars_of(ls), moved(ls, chars_of(ls), end, -1, 0)) == seq![0x20u8] ==> end.x > 0
    &&& !output ==> cursors_fit(cs, indent_start(ls, chars_of(ls), end, n).x as int)
}

/// The state of a document after indenting (or unindenting) lines `y` to `last` one after
/// another, passing over empty lines where `skip_empty`.
pub open spec fn lines_indented(
    st: (Seq<Seq<u8>>, Seq<Cursor>, usize, bool),
    y: int,
    last: int,
    skip_empty: bool,
    do_unindent: bool,
    g: Seq<char>,
    n: usize,
    single_line: bool,
    output: bool,
) -> (Seq<Seq<u8>>, Seq<Cursor>, usize, bool)
    decreases last + 1 - y,
{
    if y > last || y < 0 || y > usize::MAX {
        st
    } else {
        let empty = if y < st.0.len() { st.0[y].len() == 0 } else { true };
        let st2 = if skip_empty && empty {
            st
        } else if do_unindent {
            unindented_line(st, y as usize, n, output)
        } else {
            indented(st, Position { x: 0, y: y as usize }, g, n as nat, single_line, output)
        };
        lines_indented(st2, y + 1, last, skip_empty, do_unindent, g, n, single_line, output)
    }
}

/// Indenting (or unindenting) lines `y` to `last` as `lines_indented` does is defined at
/// every line.
pub open spec fn can_indent_lines(
    st: (Seq<Seq<u8>>, Seq<Cursor>, usize, bool),
    y: int,
    last: int,
    skip_empty: bool,
    do_unindent: bool,
    g: Seq<char>,
    n: usize,
    single_line: bool,
    output: bool,
) -> bool
    decreases last + 1 - y,
{
    y > last || y < 0 || y > usize::MAX || {
        let empty = if y < st.0.len() { st.0[y].len() == 0 } else { true };
        let st2 = if skip_empty && empty {
            st
        } else if do_unindent {
            unindented_line(st, y as usize, n, output)
        } else {
            indented(st, Position { x: 0, y: y as usize }, g, n as nat, single_line, output)
        };
        &&& skip_empty && empty || (if do_unindent {
            can_unindent_line(st, y as usize, n, output)
        } else {
            can_indent(st, Position { x: 0, y: y as usize }, g, n as nat, single_line, output)
        })
        &&& can_indent_lines(st2, y + 1, last, skip_empty, do_unindent, g, n, single_line, output)
    }
}

/// The lines a cursor indents: those its selection touches, less a last line of which
/// nothing is selected, or else its own line.
pub open spec fn indent_span(c: Cursor) -> Selection {
    selection_trimmed(
        match selection_of(c) {
            Some(s) => s,
            None => Selection { start: c.position, end: c.position },
        },
    )
}

/// The state of a document after indenting (or unindenting) the lines of cursor `k`, where it
/// stands in `st`; with a selection, empty lines are passed over.
pub open spec fn lines_indented_at_cursor(
    st: (Seq<Seq<u8>>, Seq<Cursor>, usize, bool),
    k: int,
    do_unindent: bool,
    g: Seq<char>,
    n: usize,
    single_line: bool,
    output: bool,
) -> (Seq<Seq<u8>>, Seq<Cursor>, usize, bool) {
    let c = st.1[k];
    let s = indent_span(c);
    lines_indented(st, s.start.y as int, s.end.y as int, selection_of(c) is Some, do_unindent, g, n, single_line, output)
}

/// Whether indenting (or unindenting) the lines of cursor `k` is defined.
pub open spec fn can_indent_lines_at_cursor(
    st: (Seq<Seq<u8>>, Seq<Cursor>, usize, bool),
    k: int,
    do_unindent: bool,
    g: Seq<char>,
    n: usize,
    single_line: bool,
    output: bool,
) -> bool {
    let c = st.1[k];
    let s = indent_span(c);
    &&& 0 <= k < st.1.len()
    &&& can_indent_lines(st, s.start.y as int, s.end.y as int, selection_of(c) is Some, do_unindent, g, n, single_line, output)
}

/// The state of a document after indenting (or unindenting) the lines of cursors `0..k`, one
/// after another.
pub open spec fn lines_indented_at_cursors(
    st: (Seq<Seq<u8>>, Seq<Cursor>, usize, bool),
    do_unindent: bool,
    g: Seq<char>,
    n: usize,
    single_line: bool,
    output: bool,
    k: int,
) -> (Seq<Seq<u8>>, Seq<Cursor>, usize, bool)
    decreases k,
{
    if k <= 0 {
        st
    } else {
        let before = lines_indented_at_cursors(st, do_unindent, g, n, single_line, output, k - 1);
        lines_indented_at_cursor(before, k - 1, do_unindent, g, n, single_line, output)
    }
}

/// Indenting the lines of each of cursors `0..k` is defined at every step.
pub open spec fn can_indent_lines_at_cursors(
    st: (Seq<Seq<u8>>, Seq<Cursor>, usize, bool),
    do_unindent: bool,
    g: Seq<char>,
    n: usize,
    single_line: bool,
    output: bool,
    k: int,
) -> bool
    decreases k,
{
    k <= 0 || (can_indent_lines_at_cursors(st, do_unindent, g, n, single_line, output, k - 1) && {
        let before = lines_indented_at_cursors(st, do_unindent, g, n, single_line, output, k - 1);
        can_indent_lines_at_cursor(before, k - 1, do_unindent, g, n, single_line, output)
    })
}

/// Where indenting the lines of each of `m` cursors is defined, it is at the first `k + 1`.
proof fn lemma_can_indent_lines_prefix(
    st: (Seq<Seq<u8>>, Seq<Cursor>, usize, bool),
    do_unindent: bool,
    g: Seq<char>,
    n: usize,
    single_line: bool,
    output: bool,
    k: int,
    m: int,
)
    requires
        0 <= k < m,
        can_indent_lines_at_cursors(st, do_unindent, g, n, single_line, output, m),
    ensures
        can_indent_lines_at_cursors(st, do_unindent, g, n, single_line, output, k + 1),
    decreases m,
{
    if k + 1 < m {
        lemma_can_indent_lines_prefix(st, do_unindent, g, n, single_line, output, k, m - 1);
    }
}

/// An edit of a document: the text from `start` to `end` is replaced by `new_text`.
pub struct TextEdit {
    pub start: Position,
    pub end: Position,
    pub new_text: String,
}

/// The state of a document after taking out the text from `s` to `e` (each kept within the
/// lines).
pub open spec fn deleted(st: (Seq<Seq<u8>>, Seq<Cursor>, usize, bool), s: Position, e: Position, output: bool) -> (
    Seq<Seq<u8>>,
    Seq<Cursor>,
    usize,
    bool,
) {
    let (ls, cs, u, dirty) = st;
    let a = clamp(ls, s);
    let b = clamp(ls, e);
    (
        delete_lines(ls, a, b),
        if output { cs } else { cursors_shifted_by_delete(cs, a, b) },
        if a != b { marked_from(u, a.y) } else { u },
        dirty || a != b,
    )
}

/// Taking out the text from `s` to `e` is defined: the ends, kept within the lines, are in
/// order and on characters, and the cursors leave room.
pub open spec fn can_delete(st: (Seq<Seq<u8>>, Seq<Cursor>, usize, bool), s: Position, e: Position, output: bool) -> bool {
    let ls = st.0;
    &&& pos_le(clamp(ls, s), clamp(ls, e))
    &&& on_char(ls, clamp(ls, s))
    &&& on_char(ls, clamp(ls, e))
    &&& !output ==> cursors_fit(st.1, s.x as int)
}

/// The state of a document after putting `t` in at `p` (kept within the lines).
pub open spec fn inserted(st: (Seq<Seq<u8>>, Seq<Cursor>, usize, bool), p: Position, t: Seq<char>, single_line: bool, output: bool) -> (
    Seq<Seq<u8>>,
    Seq<Cursor>,
    usize,
    bool,
) {
    let (ls, cs, u, dirty) = st;
    let (ls2, cs2) = inserted_at(ls, cs, p, t, single_line, output);
    (ls2, cs2, if blen(t) > 0 { marked_from(u, p.y) } else { u }, dirty || blen(t) > 0)
}

/// Putting `t` in at `p` is defined: it goes in on a character and the cursors leave room.
pub open spec fn can_insert(st: (Seq<Seq<u8>>, Seq<Cursor>, usize, bool), p: Position, t: Seq<char>, output: bool) -> bool {
    &&& on_char(st.0, clamp(st.0, p))
    &&& !output ==> cursors_fit(st.1, blen(t))
}

/// Where putting `t` in at `p` ends (at `p` itself for no text).
pub open spec fn insert_end(ls: Seq<Seq<u8>>, p: Position, t: Seq<char>, single_line: bool) -> Position {
    if blen(t) == 0 {
        p
    } else {
        insert_from(ls, clamp(ls, p), t, 0, single_line).1
    }
}

/// A position moved as taking out `s..e` and then putting in `s..r` moves it.
pub open spec fn shifted_by_edit(s: Position, e: Position, r: Position, p: Position) -> Position {
    shifted_by_insert(s, r, shifted_by_delete(s, e, p))
}

/// Moving `p` as `shifted_by_edit` does stays within the integers: the offsets involved fit.
pub open spec fn can_shift(s: Position, e: Position, r: Position, p: Position) -> bool {
    let q = shifted_by_delete(s, e, p);
    &&& s.x <= isize::MAX
    &&& e.x <= isize::MAX
    &&& p.x + s.x <= isize::MAX
    &&& q.x + r.x <= usize::MAX
    &&& q.y + r.y <= usize::MAX
}

/// An edit whose range was moved by an edit made before it.
pub open spec fn shifted_edit(x: TextEdit, s: Position, e: Position, r: Position) -> TextEdit {
    TextEdit { start: shifted_by_edit(s, e, r, x.start), end: shifted_by_edit(s, e, r, x.end), new_text: x.new_text }
}

/// The state of a document after making the edits `es` one after another, each range moved by
/// the edits made before it, and the edits with their moved ranges.
pub open spec fn edits_applied(
    st: (Seq<Seq<u8>>, Seq<Cursor>, usize, bool),
    es: Seq<TextEdit>,
    single_line: bool,
    output: bool,
) -> ((Seq<Seq<u8>>, Seq<Cursor>, usize, bool), Seq<TextEdit>)
    decreases es.len(),
{
    if es.len() == 0 {
        (st, es)
    } else {
        let x = es[0];
        let st1 = deleted(st, x.start, x.end, output);
        let r = insert_end(st1.0, x.start, x.new_text@, single_line);
        let st2 = inserted(st1, x.start, x.new_text@, single_line, output);
        let rest = edits_applied(
            st2,
            es.skip(1).map_values(|y: TextEdit| shifted_edit(y, x.start, x.end, r)),
            single_line,
            output,
        );
        (rest.0, seq![x] + rest.1)
    }
}

/// Making the edits `es` as `edits_applied` does is defined at every step.
pub open spec fn can_apply_edits(
    st: (Seq<Seq<u8>>, Seq<Cursor>, usize, bool),
    es: Seq<TextEdit>,
    single_line: bool,
    output: bool,
) -> bool
    decreases es.len(),
{
    es.len() == 0 || {
        let x = es[0];
        let st1 = deleted(st, x.start, x.end, output);
        let r = insert_end(st1.0, x.start, x.new_text@, single_line);
        let st2 = inserted(st1, x.start, x.new_text@, single_line, output);
        &&& can_delete(st, x.start, x.end, output)
        &&& can_insert(st1, x.start, x.new_text@, output)
        &&& forall|k: int| 1 <= k < es.len() ==> can_shift(x.start, x.end, r, (#[trigger] es[k]).start) && can_shift(
            x.start,
            x.end,
            r,
            es[k].end,
        )
        &&& can_apply_edits(
            st2,
            es.skip(1).map_values(|y: TextEdit| shifted_edit(y, x.start, x.end, r)),
            single_line,
            output,
        )
    }
}

/// The lines a step of a line script takes: line `y` with its line break, and for the last
/// line the break before it and one grapheme more.
pub open spec fn diff_line_selection(ls: Seq<Seq<u8>>, lc: Seq<Seq<char>>, y: usize) -> Selection {
    let s = line_selection(ls, lc, y);
    if y == ls.len() - 1 {
        Selection { start: moved(ls, lc, s.start, -1, 0), end: s.end }
    } else {
        s
    }
}

/// Taking the selection of a step of a line script is defined: for the last line, the place
/// it steps back from is on a character.
pub open spec fn can_select_diff_line(ls: Seq<Seq<u8>>, y: usize) -> bool {
    y == ls.len() - 1 ==> on_char(ls, clamp(ls, line_selection(ls, chars_of(ls), y).start))
}

/// The position of byte `x` of line `y`.
pub open spec fn pos(x: int, y: usize) -> Position {
    Position { x: x as usize, y }
}

/// The text one byte stands for.
pub open spec fn byte_text(b: u8) -> Seq<char> {
    decode_utf8(seq![b])
}

/// The state of a document after the steps `k..` of the byte script `d` from line `y` to the
/// bytes `b`, at byte `ai` of the line: a deletion takes out the byte there, an insertion or a
/// substitution puts in the byte of `b` it names (a substitution after taking out the byte
/// there).
pub open spec fn bytes_diff_applied(
    st: (Seq<Seq<u8>>, Seq<Cursor>, usize, bool),
    y: usize,
    b: Seq<u8>,
    d: Seq<DiffEdit>,
    k: int,
    ai: int,
    single_line: bool,
    output: bool,
) -> (Seq<Seq<u8>>, Seq<Cursor>, usize, bool)
    decreases d.len() - k,
{
    if k < 0 || k >= d.len() {
        st
    } else {
        match d[k] {
            DiffEdit::Delete => bytes_diff_applied(
                deleted(st, pos(ai, y), pos(ai + 1, y), output),
                y,
                b,
                d,
                k + 1,
                ai,
                single_line,
                output,
            ),
            DiffEdit::Insert { b_index } => bytes_diff_applied(
                inserted(st, pos(ai, y), byte_text(b[b_index as int]), single_line, output),
                y,
                b,
                d,
                k + 1,
                ai + 1,
                single_line,
                output,
            ),
            DiffEdit::Match => bytes_diff_applied(st, y, b, d, k + 1, ai + 1, single_line, output),
            DiffEdit::Substite { b_index } => bytes_diff_applied(
                inserted(
                    deleted(st, pos(ai, y), pos(ai + 1, y), output),
                    pos(ai, y),
                    byte_text(b[b_index as int]),
                    single_line,
                    output,
                ),
                y,
                b,
                d,
                k + 1,
                ai + 1,
                single_line,
                output,
            ),
        }
    }
}

/// Applying the byte script as `bytes_diff_applied` does is defined at every step: the bytes
/// put in are ASCII, what is taken out or put in is on characters, and the offsets fit.
pub open spec fn can_apply_bytes_diff(
    st: (Seq<Seq<u8>>, Seq<Cursor>, usize, bool),
    y: usize,
    b: Seq<u8>,
    d: Seq<DiffEdit>,
    k: int,
    ai: int,
    single_line: bool,
    output: bool,
) -> bool
    decreases d.len() - k,
{
    k < 0 || k >= d.len() || {
        &&& 0 <= ai
        &&& ai + 1 <= usize::MAX
        &&& match d[k] {
            DiffEdit::Delete => can_delete(st, pos(ai, y), pos(ai + 1, y), output) && can_apply_bytes_diff(
                deleted(st, pos(ai, y), pos(ai + 1, y), output),
                y,
                b,
                d,
                k + 1,
                ai,
                single_line,
                output,
            ),
            DiffEdit::Insert { b_index } => b_index < b.len() && b[b_index as int] < 0x80 && can_insert(
                st,
                pos(ai, y),
                byte_text(b[b_index as int]),
                output,
            ) && can_apply_bytes_diff(
                inserted(st, pos(ai, y), byte_text(b[b_index as int]), single_line, output),
                y,
                b,
                d,
                k + 1,
                ai + 1,
                single_line,
                output,
            ),
            DiffEdit::Match => can_apply_bytes_diff(st, y, b, d, k + 1, ai + 1, single_line, output),
            DiffEdit::Substite { b_index } => {
                let st1 = deleted(st, pos(ai, y), pos(ai + 1, y), output);
                &&& b_index < b.len()
                &&& b[b_index as int] < 0x80
                &&& can_delete(st, pos(ai, y), pos(ai + 1, y), output)
                &&& can_insert(st1, pos(ai, y), byte_text(b[b_index as int]), output)
                &&& can_apply_bytes_diff(
                    inserted(st1, pos(ai, y), byte_text(b[b_index as int]), single_line, output),
                    y,
                    b,
                    d,
                    k + 1,
                    ai + 1,
                    single_line,
                    output,
                )
            },
        }
    }
}

/// The state of a document after the steps `k..` of the line script `d` to the lines `tl`,
/// at line `ai` of the document, with `buf` the text gathered for insertions so far: a
/// deletion takes out the line there; an insertion adds the line of `tl` it names to the
/// gathered text and puts all of that in at the start of the line; a substitution changes the
/// line byte by byte by the script from it to the line of `tl` it names.
pub open spec fn line_diff_applied(
    st: (Seq<Seq<u8>>, Seq<Cursor>, usize, bool),
    tl: Seq<Seq<u8>>,
    d: Seq<DiffEdit>,
    k: int,
    ai: int,
    buf: Seq<u8>,
    single_line: bool,
    output: bool,
) -> (Seq<Seq<u8>>, Seq<Cursor>, usize, bool)
    decreases d.len() - k,
{
    if k < 0 || k >= d.len() {
        st
    } else {
        match d[k] {
            DiffEdit::Delete => {
                let sel = diff_line_selection(st.0, chars_of(st.0), ai as usize);
                line_diff_applied(deleted(st, sel.start, sel.end, output), tl, d, k + 1, ai, buf, single_line, output)
            },
            DiffEdit::Insert { b_index } => {
                let tsel = diff_line_selection(tl, chars_of(tl), b_index);
                let buf2 = buf + text_between(tl, clamp(tl, tsel.start), clamp(tl, tsel.end));
                line_diff_applied(
                    inserted(st, pos(0, ai as usize), decode_utf8(buf2), single_line, output),
                    tl,
                    d,
                    k + 1,
                    ai + 1,
                    buf2,
                    single_line,
                    output,
                )
            },
            DiffEdit::Match => line_diff_applied(st, tl, d, k + 1, ai + 1, buf, single_line, output),
            DiffEdit::Substite { b_index } => {
                let la = st.0[ai];
                let lb = tl[b_index as int];
                line_diff_applied(
                    bytes_diff_applied(st, ai as usize, lb, diff_spec(la, lb), 0, 0, single_line, output),
                    tl,
                    d,
                    k + 1,
                    ai + 1,
                    buf,
                    single_line,
                    output,
                )
            },
        }
    }
}

/// Applying the line script as `line_diff_applied` does is defined at every step.
pub open spec fn can_apply_line_diff(
    st: (Seq<Seq<u8>>, Seq<Cursor>, usize, bool),
    tl: Seq<Seq<u8>>,
    d: Seq<DiffEdit>,
    k: int,
    ai: int,
    buf: Seq<u8>,
    single_line: bool,
    output: bool,
) -> bool
    decreases d.len() - k,
{
    k < 0 || k >= d.len() || {
        &&& 0 <= ai
        &&& ai + 1 <= usize::MAX
        &&& match d[k] {
            DiffEdit::Delete => {
                let sel = diff_line_selection(st.0, chars_of(st.0), ai as usize);
                &&& can_select_diff_line(st.0, ai as usize)
                &&& can_delete(st, sel.start, sel.end, output)
                &&& can_apply_line_diff(deleted(st, sel.start, sel.end, output), tl, d, k + 1, ai, buf, single_line, output)
            },
            DiffEdit::Insert { b_index } => {
                let tsel = diff_line_selection(tl, chars_of(tl), b_index);
                let buf2 = buf + text_between(tl, clamp(tl, tsel.start), clamp(tl, tsel.end));
                &&& can_select_diff_line(tl, b_index)
                &&& pos_le(clamp(tl, tsel.start), clamp(tl, tsel.end))
                &&& on_char(tl, clamp(tl, tsel.start))
                &&& on_char(tl, clamp(tl, tsel.end))
                &&& can_insert(st, pos(0, ai as usize), decode_utf8(buf2), output)
                &&& can_apply_line_diff(
                    inserted(st, pos(0, ai as usize), decode_utf8(buf2), single_line, output),
                    tl,
                    d,
                    k + 1,
                    ai + 1,
                    buf2,
                    single_line,
                    output,
                )
            },
            DiffEdit::Match => can_apply_line_diff(st, tl, d, k + 1, ai + 1, buf, single_line, output),
            DiffEdit::Substite { b_index } => {
                &&& ai < st.0.len()
                &&& b_index < tl.len()
                &&& (st.0[ai].len() + 1) * (tl[b_index as int].len() + 1) <= usize::MAX
                &&& can_apply_bytes_diff(
                    st,
                    ai as usize,
                    tl[b_index as int],
                    diff_spec(st.0[ai], tl[b_index as int]),
                    0,
                    0,
                    single_line,
                    output,
                )
                &&& can_apply_line_diff(
                    bytes_diff_applied(
                        st,
                        ai as usize,
                        tl[b_index as int],
                        diff_spec(st.0[ai], tl[b_index as int]),
                        0,
                        0,
                        single_line,
                        output,
                    ),
                    tl,
                    d,
                    k + 1,
                    ai + 1,
                    buf,
                    single_line,
                    output,
                )
            },
        }
    }
}

/// The state a scratch copy of a document's lines starts from: one cursor at the start,
/// nothing to highlight again.
pub open spec fn scratch_state(ls: Seq<Seq<u8>>) -> (Seq<Seq<u8>>, Seq<Cursor>, usize, bool) {
    (ls, seq![first_cursor()], 0, false)
}

/// A position within the document.
pub open spec fn within(ls: Seq<Seq<u8>>, p: Position) -> bool {
    p.y < ls.len() && p.x <= ls[p.y as int].len()
}

/// The end of the last line.
pub open spec fn doc_end(ls: Seq<Seq<u8>>) -> Position {
    Position { x: ls.last().len() as usize, y: (ls.len() - 1) as usize }
}

/// The offset of `p` in the document's text, its lines joined by line feeds.
pub open spec fn flat_offset(ls: Seq<Seq<u8>>, p: Position) -> int {
    joined_lines(ls, 0, p.y as int).len() + p.x
}

/// How many offsets lie between `p` and the end it moves toward: the document's end going
/// forward, its start going back.
pub open spec fn room(ls: Seq<Seq<u8>>, p: Position, forward: bool) -> nat {
    (if forward { flat_offset(ls, doc_end(ls)) - flat_offset(ls, p) } else { flat_offset(ls, p) }) as nat
}

/// The joined lines grow by at least a whole line and its line feed past each line.
pub proof fn lemma_joined_grows(ls: Seq<Seq<u8>>, a: int, b: int)
    requires
        0 <= a < b,
    ensures
        joined_lines(ls, 0, a).len() + ls[a].len() + 1 <= joined_lines(ls, 0, b).len(),
    decreases b - a,
{
    lemma_joined_push(ls, 0, b - 1);
    if a + 1 < b {
        lemma_joined_grows(ls, a, b - 1);
    }
}

/// Offsets keep the order of positions.
pub proof fn lemma_flat_order(ls: Seq<Seq<u8>>, p: Position, q: Position)
    requires
        within(ls, p),
        within(ls, q),
        pos_le(p, q),
    ensures
        flat_offset(ls, p) <= flat_offset(ls, q),
        pos_lt(p, q) ==> flat_offset(ls, p) < flat_offset(ls, q),
{
    if p.y < q.y {
        lemma_joined_grows(ls, p.y as int, q.y as int);
    }
}

/// The document's end lies within it, after every position within it.
pub proof fn lemma_end_within(ls: Seq<Seq<u8>>, q: Position)
    requires
        0 < ls.len() <= usize::MAX,
        ls.last().len() <= usize::MAX,
        within(ls, q),
    ensures
        within(ls, doc_end(ls)),
        pos_le(q, doc_end(ls)),
{
}

/// The category of the grapheme that a move by `dx` from `p` passes first: the one before
/// `p` going back, the one at `p` otherwise.
pub open spec fn side_category(ls: Seq<Seq<u8>>, lc: Seq<Seq<char>>, p: Position, dx: int) -> GraphemeCategory {
    grapheme_category_of(grapheme_at(ls, lc, moved(ls, lc, p, if dx < 0 { -1 } else { 0 }, 0)))
}

/// Moving from `p` by `dx` graphemes at a time while the grapheme passed is of category `cat`
/// (and not a line feed) and the move gets anywhere, for at most `fuel` moves.
pub open spec fn skip_from(
    ls: Seq<Seq<u8>>,
    lc: Seq<Seq<char>>,
    p: Position,
    dx: int,
    cat: GraphemeCategory,
    fuel: nat,
) -> Position
    decreases fuel,
{
    let c = side_category(ls, lc, p, dx);
    let next = moved(ls, lc, p, dx, 0);
    if fuel == 0 || c != cat || c == GraphemeCategory::Newline || next == p {
        p
    } else {
        skip_from(ls, lc, next, dx, cat, (fuel - 1) as nat)
    }
}

/// Where skipping graphemes of category `cat` from `p` stops; each move gets further, so there
/// are no more moves than offsets to pass.
pub open spec fn skipped(ls: Seq<Seq<u8>>, lc: Seq<Seq<char>>, p: Position, dx: int, cat: GraphemeCategory) -> Position {
    skip_from(ls, lc, p, dx, cat, room(ls, p, dx >= 0))
}

/// The next word from `p` by `dx`: past white space, then past graphemes of the category that
/// follows it; where that gets nowhere, one move.
pub open spec fn next_word(ls: Seq<Seq<u8>>, lc: Seq<Seq<char>>, p: Position, dx: int) -> Position {
    let s = skipped(ls, lc, clamp(ls, p), dx, GraphemeCategory::Space);
    let e = skipped(ls, lc, s, dx, side_category(ls, lc, s, dx));
    if e == p {
        moved(ls, lc, e, dx, 0)
    } else {
        e
    }
}

/// Moving from `p` by `dy` lines at a time while a line's emptiness is `skip_empty` and the
/// move gets anywhere, for at most `fuel` moves.
pub open spec fn lines_skip_from(ls: Seq<Seq<u8>>, p: Position, dy: int, skip_empty: bool, fuel: nat) -> Position
    decreases fuel,
{
    let next = moved_vertically(ls, p, dy);
    if fuel == 0 || (ls[p.y as int].len() == 0) != skip_empty || next == p {
        p
    } else {
        lines_skip_from(ls, next, dy, skip_empty, (fuel - 1) as nat)
    }
}

/// Where skipping lines (empty ones, or ones with text) from `p` stops.
pub open spec fn lines_skipped(ls: Seq<Seq<u8>>, p: Position, dy: int, skip_empty: bool) -> Position {
    lines_skip_from(ls, p, dy, skip_empty, room(ls, p, dy >= 0))
}

/// The next paragraph from `p` by `dy`: past empty lines first if `skip_blank`, then past the
/// lines that are as empty as the one reached.
pub open spec fn next_paragraph(ls: Seq<Seq<u8>>, p: Position, dy: int, skip_blank: bool) -> Position {
    let s = if skip_blank { lines_skipped(ls, clamp(ls, p), dy, true) } else { clamp(ls, p) };
    lines_skipped(ls, s, dy, ls[s.y as int].len() == 0)
}

/// Where the white space that ends a line starts: walking back grapheme by grapheme from byte
/// `i` of the line with characters `l` (of `len` bytes) while the grapheme at `i` is white
/// space, `acc` being the start of the last one found.
pub open spec fn trailing_white_from(l: Seq<char>, len: usize, i: usize, acc: usize) -> usize
    decreases i,
{
    if !all_in_class(CharClass::Whitespace, decode_utf8(grapheme_bytes(l, i))) {
        acc
    } else {
        match unicode_prev_boundary(l, i, len) {
            Some(j) => if j < i {
                trailing_white_from(l, len, j, i)
            } else {
                i
            },
            None => i,
        }
    }
}

/// Where the white space that ends the line with characters `l` starts.
pub open spec fn trailing_white_start(l: Seq<char>) -> usize {
    trailing_white_from(l, blen(l) as usize, blen(l) as usize, 0)
}

/// The lines without the white space they end with.
pub open spec fn trimmed_lines(ls: Seq<Seq<u8>>, lc: Seq<Seq<char>>) -> Seq<Seq<u8>> {
    Seq::new(ls.len(), |k: int| ls[k].subrange(0, trailing_white_start(lc[k]) as int))
}

/// Where taking out the white space at the end of `p`'s line moves `p`; a position past the
/// last line stays.
pub open spec fn trimmed_position(ls: Seq<Seq<u8>>, lc: Seq<Seq<char>>, p: Position) -> Position {
    if p.y < ls.len() {
        shifted_by_delete(
            Position { x: trailing_white_start(lc[p.y as int]), y: p.y },
            Position { x: ls[p.y as int].len() as usize, y: p.y },
            p,
        )
    } else {
        p
    }
}

/// The cursors after the white space at the ends of lines `0..y` is taken out.
pub open spec fn cursors_trimmed_below(ls: Seq<Seq<u8>>, lc: Seq<Seq<char>>, cs: Seq<Cursor>, y: int) -> Seq<Cursor> {
    cs.map_values(|c: Cursor| cursor_moved(c, |p: Position| if p.y < y { trimmed_position(ls, lc, p) } else { p }))
}

/// The cursors after the white space at the ends of all the lines is taken out.
pub open spec fn trimmed_cursors(ls: Seq<Seq<u8>>, lc: Seq<Seq<char>>, cs: Seq<Cursor>) -> Seq<Cursor> {
    cursors_trimmed_below(ls, lc, cs, ls.len() as int)
}

/// The character boundary of `b` that precedes byte `i`.
pub open spec fn prev_char_start(b: Seq<u8>, i: int) -> int {
    choose|j: int| is_prev_char_boundary(b, i, j)
}

/// One character boundary precedes `i`: the last before it.
pub proof fn lemma_prev_char_start(b: Seq<u8>, i: int, j: int)
    requires
        is_prev_char_boundary(b, i, j),
    ensures
        prev_char_start(b, i) == j,
{
    let k = prev_char_start(b, i);
    assert(is_prev_char_boundary(b, i, k));
    if k < j {
        assert(!boundary(b, j));
    } else if k > j {
        assert(!boundary(b, k));
    }
}

/// Where a backward search for `tb` stands after the document's previous character `c`, with
/// the bytes of `tb` from `m` on matched: one character fewer left to match if `c` ends what
/// is left; else, where some were matched, the last character of `tb` alone if `c` is that;
/// else nothing matched.
pub open spec fn match_step_back(tb: Seq<u8>, m: int, c: Seq<u8>) -> int {
    let last = prev_char_start(tb, tb.len() as int);
    if tb.subrange(prev_char_start(tb, m), m) == c {
        prev_char_start(tb, m)
    } else if m < tb.len() && tb.subrange(last, tb.len() as int) == c {
        last
    } else {
        tb.len() as int
    }
}

/// A backward search for the bytes `tb`, character by character back from byte `x` of line
/// `y`, with the bytes of `tb` from `m` on matched (a match goes on from one line into the one
/// before): at the start of a line it goes on at the end of the one before, before the first
/// at the last if `wrap`, and ends on coming back to line `start_y`, or after `n` more lines.
pub open spec fn search_back_from(
    ls: Seq<Seq<u8>>,
    tb: Seq<u8>,
    y: int,
    x: int,
    m: int,
    start_y: int,
    wrap: bool,
    n: nat,
) -> Option<Position>
    decreases n, x,
{
    let l = ls[y];
    let cs = prev_char_start(l, x);
    if 0 < x <= l.len() && 0 <= cs < x {
        let m2 = match_step_back(tb, m, l.subrange(cs, x));
        if m2 == 0 {
            Some(Position { x: cs as usize, y: y as usize })
        } else {
            search_back_from(ls, tb, y, cs, m2, start_y, wrap, n)
        }
    } else {
        let y2 = if y > 0 {
            y - 1
        } else if wrap {
            ls.len() - 1
        } else {
            -1
        };
        if y2 < 0 || y2 == start_y || n == 0 {
            None
        } else {
            search_back_from(ls, tb, y2, ls[y2].len() as int, m, start_y, wrap, (n - 1) as nat)
        }
    }
}

/// The search back for `tb` from `p`, as the document's backward search makes it.
pub open spec fn search_backward_from(ls: Seq<Seq<u8>>, tb: Seq<u8>, p: Position, wrap: bool) -> Option<Position> {
    search_back_from(ls, tb, p.y as int, p.x as int, tb.len() as int, p.y as int, wrap, (ls.len() - 1) as nat)
}

/// Before any character boundary there is a first boundary after `i`.
pub proof fn lemma_next_boundary_exists(b: Seq<u8>, i: int, k: int)
    requires
        i < k,
        boundary(b, k),
    ensures
        i < next_char_end(b, i) <= k,
        is_next_char_boundary(b, i, next_char_end(b, i)),
    decreases k - i,
{
    if exists|t: int| i < t < k && boundary(b, t) {
        let t = choose|t: int| i < t < k && boundary(b, t);
        lemma_next_boundary_exists(b, i, t);
    } else {
        assert(is_next_char_boundary(b, i, k));
        lemma_next_char_end(b, i, k);
    }
}

/// After any character boundary there is a last boundary before `i`.
pub proof fn lemma_prev_boundary_exists(b: Seq<u8>, i: int, k: int)
    requires
        k < i,
        boundary(b, k),
    ensures
        k <= prev_char_start(b, i) < i,
        is_prev_char_boundary(b, i, prev_char_start(b, i)),
    decreases i - k,
{
    if exists|t: int| k < t < i && boundary(b, t) {
        let t = choose|t: int| k < t < i && boundary(b, t);
        lemma_prev_boundary_exists(b, i, t);
    } else {
        assert(is_prev_char_boundary(b, i, k));
        lemma_prev_char_start(b, i, k);
    }
}

/// Every line, and the number of lines, fit in a `usize`.
pub open spec fn fits(ls: Seq<Seq<u8>>) -> bool {
    &&& ls.len() <= usize::MAX
    &&& forall|k: int| 0 <= k < ls.len() ==> #[trigger] ls[k].len() <= usize::MAX
}

/// A forward search whose first `m` bytes matched lie just before `x` in line `y` (where they
/// fit in it) finds only places where the text stands.
proof fn lemma_search_from_finds(
    ls: Seq<Seq<u8>>,
    tb: Seq<u8>,
    y: int,
    x: int,
    m: int,
    start_y: int,
    wrap: bool,
    n: nat,
)
    requires
        valid_utf8(tb),
        fits(ls),
        0 <= m < tb.len(),
        boundary(tb, m),
        0 <= y < ls.len(),
        0 <= x <= ls[y].len(),
        m <= x ==> ls[y].subrange(x - m, x) == tb.subrange(0, m),
    ensures
        search_from(ls, tb, y, x, m, start_y, wrap, n) matches SearchOutcome::Found(q) ==> q.x + tb.len()
            <= ls[q.y as int].len() && ls[q.y as int].subrange(q.x as int, q.x + tb.len()) == tb,
    decreases n, ls[y].len() - x,
{
    is_char_boundary_start_end_of_seq(tb);
    let l = ls[y];
    let ce = next_char_end(l, x);
    if x < l.len() && x < ce <= l.len() {
        let c = l.subrange(x, ce);
        let m2 = match_step(tb, m, c);
        lemma_next_boundary_exists(tb, m, tb.len() as int);
        lemma_next_boundary_exists(tb, 0, tb.len() as int);
        let j = next_char_end(tb, m);
        let j0 = next_char_end(tb, 0);
        assert(c.len() == ce - x);
        assert(ls[y].len() <= usize::MAX);
        if tb.subrange(m, j) == c {
            assert(j - m == ce - x);
            assert(m2 == j);
            if m <= x {
                assert(l.subrange(ce - m2, ce) =~= l.subrange(x - m, x) + c);
                assert(tb.subrange(0, m2) =~= tb.subrange(0, m) + tb.subrange(m, j));
            }
        } else if m > 0 && tb.subrange(0, j0) == c {
            assert(m2 == j0);
            assert(j0 == ce - x);
            assert(l.subrange(ce - m2, ce) =~= c);
        } else {
            assert(m2 == 0);
            assert(l.subrange(ce, ce) =~= tb.subrange(0, 0));
        }
        assert(m2 <= ce ==> l.subrange(ce - m2, ce) == tb.subrange(0, m2));
        if m2 >= tb.len() {
            if ce >= tb.len() {
                assert(m2 == tb.len());
                assert(tb.subrange(0, m2) =~= tb);
            }
        } else {
            lemma_search_from_finds(ls, tb, y, ce, m2, start_y, wrap, n);
        }
    } else {
        let y2 = if y + 1 < ls.len() {
            y + 1
        } else if wrap {
            0
        } else {
            -1
        };
        if !(y2 < 0 || y2 == start_y || n == 0) {
            assert(ls[y2].subrange(0, 0) =~= tb.subrange(0, 0));
            lemma_search_from_finds(ls, tb, y2, 0, m, start_y, wrap, (n - 1) as nat);
        }
    }
}

/// Where the forward search finds a match, the text stands there, within one line.
pub proof fn law_search_forward_finds_text(ls: Seq<Seq<u8>>, tb: Seq<u8>, p: Position, wrap: bool)
    requires
        valid_utf8(tb),
        tb.len() > 0,
        fits(ls),
        within(ls, p),
    ensures
        search_forward_from(ls, tb, p, wrap) matches SearchOutcome::Found(q) ==> q.x + tb.len()
            <= ls[q.y as int].len() && ls[q.y as int].subrange(q.x as int, q.x + tb.len()) == tb,
{
    is_char_boundary_start_end_of_seq(tb);
    assert(ls[p.y as int].subrange(p.x as int, p.x as int) =~= tb.subrange(0, 0));
    lemma_search_from_finds(ls, tb, p.y as int, p.x as int, 0, p.y as int, wrap, (ls.len() - 1) as nat);
}

/// A backward search whose bytes matched from `m` on lie just after `x` in line `y` (where
/// they fit in it) finds only places where the text stands, where it fits in the line.
proof fn lemma_search_back_from_finds(
    ls: Seq<Seq<u8>>,
    tb: Seq<u8>,
    y: int,
    x: int,
    m: int,
    start_y: int,
    wrap: bool,
    n: nat,
)
    requires
        valid_utf8(tb),
        fits(ls),
        0 < m <= tb.len(),
        boundary(tb, m),
        0 <= y < ls.len(),
        0 <= x <= ls[y].len(),
        x + tb.len() - m <= ls[y].len() ==> ls[y].subrange(x, x + tb.len() - m) == tb.subrange(m, tb.len() as int),
    ensures
        search_back_from(ls, tb, y, x, m, start_y, wrap, n) matches Some(q) ==> (q.x + tb.len() <= ls[q.y as int].len()
            ==> ls[q.y as int].subrange(q.x as int, q.x + tb.len()) == tb),
    decreases n, x,
{
    is_char_boundary_start_end_of_seq(tb);
    let l = ls[y];
    let cs = prev_char_start(l, x);
    if 0 < x <= l.len() && 0 <= cs < x {
        let c = l.subrange(cs, x);
        let m2 = match_step_back(tb, m, c);
        lemma_prev_boundary_exists(tb, m, 0);
        lemma_prev_boundary_exists(tb, tb.len() as int, 0);
        let j = prev_char_start(tb, m);
        let last = prev_char_start(tb, tb.len() as int);
        assert(c.len() == x - cs);
        assert(ls[y].len() <= usize::MAX);
        if tb.subrange(j, m) == c {
            assert(m - j == x - cs);
            assert(m2 == j);
            if x + tb.len() - m <= l.len() {
                assert(l.subrange(cs, cs + tb.len() - m2) =~= c + l.subrange(x, x + tb.len() - m));
                assert(tb.subrange(m2, tb.len() as int) =~= tb.subrange(j, m) + tb.subrange(m, tb.len() as int));
            }
        } else if m < tb.len() && tb.subrange(last, tb.len() as int) == c {
            assert(m2 == last);
            assert(tb.len() - last == x - cs);
            assert(l.subrange(cs, cs + tb.len() - m2) =~= c);
        } else {
            assert(m2 == tb.len());
            assert(l.subrange(cs, cs) =~= tb.subrange(tb.len() as int, tb.len() as int));
        }
        assert(cs + tb.len() - m2 <= l.len() ==> l.subrange(cs, cs + tb.len() - m2) == tb.subrange(m2, tb.len() as int));
        if m2 == 0 {
            assert(tb.subrange(0, tb.len() as int) =~= tb);
        } else {
            lemma_search_back_from_finds(ls, tb, y, cs, m2, start_y, wrap, n);
        }
    } else {
        let y2 = if y > 0 {
            y - 1
        } else if wrap {
            ls.len() - 1
        } else {
            -1
        };
        if !(y2 < 0 || y2 == start_y || n == 0) {
            let x2 = ls[y2].len() as int;
            assert(ls[y2].subrange(x2, x2) =~= tb.subrange(tb.len() as int, tb.len() as int));
            lemma_search_back_from_finds(ls, tb, y2, x2, m, start_y, wrap, (n - 1) as nat);
        }
    }
}

/// Where the backward search finds a match that fits in its line, the text stands there.
pub proof fn law_search_backward_finds_text(ls: Seq<Seq<u8>>, tb: Seq<u8>, p: Position, wrap: bool)
    requires
        valid_utf8(tb),
        tb.len() > 0,
        fits(ls),
        within(ls, p),
    ensures
        search_backward_from(ls, tb, p, wrap) matches Some(q) ==> (q.x + tb.len() <= ls[q.y as int].len()
            ==> ls[q.y as int].subrange(q.x as int, q.x + tb.len()) == tb),
{
    is_char_boundary_start_end_of_seq(tb);
    assert(ls[p.y as int].subrange(p.x as int, p.x as int) =~= tb.subrange(tb.len() as int, tb.len() as int));
    lemma_search_back_from_finds(ls, tb, p.y as int, p.x as int, tb.len() as int, p.y as int, wrap, (ls.len() - 1) as nat);
}

/// How the lines of a document end in its file: with a line feed, or a carriage return and
/// a line feed.
#[derive(PartialEq, Eq, Clone, Copy, Debug, Structural)]
pub enum LineEnding {
    Lf,
    CrLf,
}

/// The bytes a line ending is written with.
pub open spec fn ending_bytes(e: LineEnding) -> Seq<u8> {
    match e {
        LineEnding::Lf => seq![0x0Au8],
        LineEnding::CrLf => seq![0x0Du8, 0x0Au8],
    }
}

/// The first `n` lines, joined by `sep`.
pub open spec fn joined_by(ls: Seq<Seq<u8>>, sep: Seq<u8>, n: int) -> Seq<u8>
    decreases n,
{
    if n <= 0 {
        Seq::empty()
    } else if n == 1 {
        ls[0]
    } else {
        joined_by(ls, sep, n - 1) + sep + ls[n - 1]
    }
}

/// Whether the grapheme with bytes `g` breaks a line: a carriage return, a line feed, or both.
pub open spec fn is_line_break(g: Seq<u8>) -> bool {
    g == seq![0x0Du8, 0x0Au8] || g == seq![0x0Du8] || g == seq![0x0Au8]
}

/// Where the first grapheme of `t` from byte `i` on that breaks a line starts.
pub open spec fn first_line_break(t: Seq<char>, i: usize) -> Option<usize>
    decreases blen(t) - i,
{
    if can_step(t, i) {
        if is_line_break(grapheme_bytes(t, i)) {
            Some(i)
        } else {
            first_line_break(t, grapheme_end(t, i))
        }
    } else {
        None
    }
}

/// The line ending of the break at byte `i` of `t`: a carriage return and a line feed,
/// together or as two graphemes in a row, or else a line feed.
pub open spec fn ending_at(t: Seq<char>, i: usize) -> LineEnding {
    let e = grapheme_end(t, i);
    if grapheme_bytes(t, i) == seq![0x0Du8, 0x0Au8] || (grapheme_bytes(t, i) == seq![0x0Du8] && e < blen(t)
        && grapheme_bytes(t, e) == seq![0x0Au8]) {
        LineEnding::CrLf
    } else {
        LineEnding::Lf
    }
}

/// The line ending that text loaded into a document sets, from its first line break
/// (a carriage return and a line feed where it has none), and how many of its bytes are
/// put in: all of them, or for a single line those before the first break.
pub open spec fn line_ending_and_len(t: Seq<char>, single_line: bool) -> (LineEnding, usize) {
    match first_line_break(t, 0) {
        Some(i) => (ending_at(t, i), if single_line { i } else { blen(t) as usize }),
        None => (LineEnding::CrLf, blen(t) as usize),
    }
}

/// The lines of a document after loading the text `t`: the part of it that is put in,
/// put into one empty line.
pub open spec fn loaded_lines(t: Seq<char>, single_line: bool) -> Seq<Seq<u8>> {
    let len = line_ending_and_len(t, single_line).1;
    if len == 0 {
        seq![Seq::<u8>::empty()]
    } else {
        insert_from(
            seq![Seq::<u8>::empty()],
            Position { x: 0, y: 0 },
            decode_utf8(encode_utf8(t).subrange(0, len as int)),
            0,
            single_line,
        ).0
    }
}

/// Every grapheme walk over `t` from a character boundary before its end takes a step and
/// lands on a character boundary (as the grapheme cursor's contract says of every walk).
pub open spec fn walks_to_end(t: Seq<char>) -> bool {
    forall|i: usize| #![trigger grapheme_end(t, i)]
        i < blen(t) && boundary(encode_utf8(t), i as int) ==> can_step(t, i) && boundary(
            encode_utf8(t),
            grapheme_end(t, i) as int,
        )
}

/// Text with no carriage return is put in as it is, into a document of many lines.
proof fn lemma_inserted_plain(t: Seq<char>, i: usize)
    requires
        i <= blen(t),
        boundary(encode_utf8(t), i as int),
        walks_to_end(t),
        forall|k: int| 0 <= k < blen(t) ==> encode_utf8(t)[k] != 0x0Du8,
    ensures
        inserted_bytes(t, i, false) == encode_utf8(t).subrange(i as int, blen(t)),
    decreases blen(t) - i,
{
    let b = encode_utf8(t);
    if i < blen(t) {
        let e = grapheme_end(t, i);
        let g = grapheme_bytes(t, i);
        assert(g[0] == b[i as int]);
        lemma_inserted_plain(t, e);
        assert(b.subrange(i as int, blen(t)) =~= g + b.subrange(e as int, blen(t)));
    } else {
        assert(b.subrange(i as int, blen(t)) =~= Seq::<u8>::empty());
    }
}

/// Putting in text moves to a later line only past a line break.
proof fn lemma_insert_from_breaks(ls: Seq<Seq<u8>>, q: Position, t: Seq<char>, i: usize, single_line: bool)
    ensures
        insert_from(ls, q, t, i, single_line).1.y != q.y ==> first_line_break(t, i) is Some,
    decreases blen(t) - i,
{
    if can_step(t, i) {
        let e = grapheme_end(t, i);
        let g = grapheme_bytes(t, i);
        let l = ls[q.y as int];
        if !is_line_break(g) {
            let ls1 = ls.update(q.y as int, l.subrange(0, q.x as int) + g + l.subrange(q.x as int, l.len() as int));
            lemma_insert_from_breaks(ls1, Position { x: (q.x + g.len()) as usize, y: q.y }, t, e, single_line);
        }
    }
}

/// The lines joined by line feeds are the lines before the last, each with its line feed,
/// and then the last.
proof fn lemma_joined_by_feeds(ls: Seq<Seq<u8>>, n: int)
    requires
        n >= 1,
    ensures
        joined_by(ls, seq![0x0Au8], n) == joined_lines(ls, 0, n - 1) + ls[n - 1],
    decreases n,
{
    if n == 1 {
        assert(joined_lines(ls, 0, 0) =~= Seq::<u8>::empty());
        assert(joined_by(ls, seq![0x0Au8], 1) =~= joined_lines(ls, 0, 0) + ls[0]);
    } else {
        lemma_joined_by_feeds(ls, n - 1);
        lemma_joined_push(ls, 0, n - 2);
        assert(joined_by(ls, seq![0x0Au8], n) =~= joined_lines(ls, 0, n - 1) + ls[n - 1]);
    }
}

/// Loading a text with no carriage return into a document of many lines and writing the
/// document's text out again, lines joined by the line ending the load set, gives the text
/// back.
pub proof fn law_load_then_write(t: Seq<char>)
    requires
        blen(t) < usize::MAX,
        walks_to_end(t),
        forall|k: int| 0 <= k < blen(t) ==> encode_utf8(t)[k] != 0x0Du8,
    ensures
        ({
            let ls = loaded_lines(t, false);
            joined_by(ls, ending_bytes(line_ending_and_len(t, false).0), ls.len() as int) == encode_utf8(t)
        }),
{
    let b = encode_utf8(t);
    let ls = loaded_lines(t, false);
    is_char_boundary_start_end_of_seq(b);
    if blen(t) == 0 {
        assert(b =~= Seq::<u8>::empty());
        assert(ls == seq![Seq::<u8>::empty()]);
        assert(joined_by(ls, ending_bytes(line_ending_and_len(t, false).0), 1) == ls[0]);
    } else {
        assert(b.subrange(0, blen(t)) =~= b);
        let empty = seq![Seq::<u8>::empty()];
        let q = Position { x: 0, y: 0 };
        lemma_insert_from(empty, q, t, 0, false);
        lemma_inserted_plain(t, 0);
        lemma_insert_from_breaks(empty, q, t, 0, false);
        let (ls2, e) = insert_from(empty, q, t, 0, false);
        assert(ls2 == ls);
        assert(e.y == ls2.len() - 1);
        assert(e.x == ls2[e.y as int].len());
        let last = ls2[e.y as int];
        assert(last.subrange(0, e.x as int) =~= last);
        lemma_joined_by_feeds(ls2, ls2.len() as int);
        if e.y == 0 {
            assert(joined_lines(ls2, 0, 0) =~= Seq::<u8>::empty());
            assert(joined_by(ls2, ending_bytes(line_ending_and_len(t, false).0), 1) == ls2[0]);
        } else {
            let first = ls2[0];
            assert(first.subrange(0, first.len() as int) =~= first);
            assert(text_between(ls2, q, e) =~= joined_lines(ls2, 0, e.y as int) + last);
            let brk = first_line_break(t, 0)->0;
            assert(line_ending_and_len(t, false).0 == LineEnding::Lf) by {
                assert(grapheme_bytes(t, brk)[0] != 0x0Du8) by {
                    lemma_line_break_in_text(t, 0);
                }
            }
        }
    }
}

/// A line break found from byte `i` on is a grapheme of the text, past `i`.
proof fn lemma_line_break_in_text(t: Seq<char>, i: usize)
    requires
        first_line_break(t, i) is Some,
    ensures
        ({
            let k = first_line_break(t, i)->0;
            &&& i <= k
            &&& can_step(t, k)
            &&& is_line_break(grapheme_bytes(t, k))
            &&& grapheme_bytes(t, k)[0] == encode_utf8(t)[k as int]
        }),
    decreases blen(t) - i,
{
    if can_step(t, i) && !is_line_break(grapheme_bytes(t, i)) {
        lemma_line_break_in_text(t, grapheme_end(t, i));
    }
}

/// The end of line `y`, or the start of a line past the last.
pub open spec fn line_end_at(ls: Seq<Seq<u8>>, y: usize) -> Position {
    Position { x: if y < ls.len() { ls[y as int].len() as usize } else { 0 }, y }
}

/// The selection of line `y` with its line break: up to the start of the next line, or for
/// the last line from the end of the line before.
pub open spec fn line_selection(ls: Seq<Seq<u8>>, lc: Seq<Seq<char>>, y: usize) -> Selection {
    let start = Position { x: 0, y };
    let end = line_end_at(ls, y);
    if y == ls.len() - 1 {
        Selection { start: moved(ls, lc, start, -1, 0), end }
    } else {
        Selection { start, end: moved(ls, lc, end, 1, 0) }
    }
}

/// The selection of the word at `p`: from the start of the word the grapheme at `p` belongs
/// to, up to the next word after that start (while within the line's length).
pub open spec fn word_selection(ls: Seq<Seq<u8>>, lc: Seq<Seq<char>>, p: Position) -> Selection {
    let len = line_end_at(ls, p.y).x;
    let p1 = if p.x < len { moved(ls, lc, p, 1, 0) } else { p };
    let p2 = if p1.x > 0 { next_word(ls, lc, p1, -1) } else { p1 };
    let p3 = if p2.x < len { next_word(ls, lc, p2, 1) } else { p2 };
    Selection { start: p2, end: p3 }
}

/// The highlights, the tokenizer and the count of users of two states of a document are the
/// same.
pub open spec fn same_annotations(a: &Doc, b: &Doc) -> bool {
    &&& a.highlights_view() == b.highlights_view()
    &&& a.tokens_view() == b.tokens_view()
    &&& a.tokens_ready() == b.tokens_ready()
    &&& a.usages_view() == b.usages_view()
}

/// After editing from line `y`: the highlights may be out of date from the earlier of
/// `y` and where they already were, and the tokens are.
pub open spec fn dirtied(a: &Doc, b: &Doc, y: usize) -> bool {
    &&& b.unhighlighted_view() == if y < a.unhighlighted_view() { y } else { a.unhighlighted_view() }
    &&& b.needs_tokenization_view()
}

/// Nothing was marked out of date.
pub open spec fn undirtied(a: &Doc, b: &Doc) -> bool {
    &&& b.unhighlighted_view() == a.unhighlighted_view()
    &&& b.needs_tokenization_view() == a.needs_tokenization_view()
}

/// The cursors and the main cursor's position history of two states of a document are the
/// same.
pub open spec fn same_cursors(a: &Doc, b: &Doc) -> bool {
    &&& a.cursors_view() == b.cursors_view()
    &&& a.cursor_undo_view() == b.cursor_undo_view()
    &&& a.cursor_redo_view() == b.cursor_redo_view()
}

/// The cursor a document starts with: at its start, selecting nothing.
pub open spec fn first_cursor() -> Cursor {
    Cursor { position: Position { x: 0, y: 0 }, selection_anchor: None, desired_visual_x: 0 }
}

/// A position lies at least `n` below the largest offset, on both axes.
pub open spec fn position_fits(p: Position, n: int) -> bool {
    p.x + n <= isize::MAX && p.y + n <= isize::MAX
}

/// The position and the selection anchor of each cursor lie at least `n` below the largest
/// offset.
pub open spec fn cursors_fit(cs: Seq<Cursor>, n: int) -> bool {
    forall|i: int| 0 <= i < cs.len() ==> position_fits((#[trigger] cs[i]).position, n) && match cs[i].selection_anchor {
        Some(a) => position_fits(a, n),
        None => true,
    }
}

/// A cursor moved as `f` moves its position and its selection anchor.
pub open spec fn cursor_moved(c: Cursor, f: spec_fn(Position) -> Position) -> Cursor {
    Cursor {
        position: f(c.position),
        selection_anchor: match c.selection_anchor {
            Some(a) => Some(f(a)),
            None => None,
        },
        desired_visual_x: c.desired_visual_x,
    }
}

/// The cursors after the text from `start` to `end` is put in.
pub open spec fn cursors_shifted_by_insert(cs: Seq<Cursor>, start: Position, end: Position) -> Seq<Cursor> {
    cs.map_values(|c: Cursor| cursor_moved(c, |p: Position| shifted_by_insert(start, end, p)))
}

/// The cursors after the text from `start` to `end` is taken out.
pub open spec fn cursors_shifted_by_delete(cs: Seq<Cursor>, start: Position, end: Position) -> Seq<Cursor> {
    cs.map_values(|c: Cursor| cursor_moved(c, |p: Position| shifted_by_delete(start, end, p)))
}

/// The end of text put in at `start` lies within `n` bytes of it: at most `n` lines below it,
/// and at most `n` bytes after it on its line or from the start of a later line.
pub open spec fn insert_reach(start: Position, end: Position, n: int) -> bool {
    &&& start.y <= end.y
    &&& end.y - start.y <= n
    &&& end.y == start.y ==> start.x <= end.x && end.x - start.x <= n
    &&& end.y > start.y ==> end.x <= n
}

/// Where putting in the text from `start` to `end` moves `p`.
fn shift_insert(start: Position, end: Position, p: Position, n: usize) -> (r: Position)
    requires
        insert_reach(start, end, n as int),
        position_fits(p, n as int),
    ensures
        r == shifted_by_insert(start, end, p),
        position_fits(p, n as int) ==> r.x <= p.x + n && r.y <= p.y + n,
{
    if start.y == p.y && start.x <= p.x {
        Position::new(p.x - start.x + end.x, p.y + (end.y - start.y))
    } else if start.y < p.y {
        Position::new(p.x, p.y + (end.y - start.y))
    } else {
        p
    }
}

/// Where taking out the text from `start` to `end` moves `p`.
fn shift_delete(start: Position, end: Position, p: Position, n: usize) -> (r: Position)
    requires
        start.x <= n,
        position_fits(p, n as int),
    ensures
        r == shifted_by_delete(start, end, p),
{
    let influence_end = end.min(p);
    if influence_end.is_before(&start) || influence_end == start {
        return p;
    }
    if influence_end.y == p.y && influence_end.x <= p.x {
        Position::new(p.x - influence_end.x + start.x, p.y - (influence_end.y - start.y))
    } else if influence_end.y < p.y {
        Position::new(p.x, p.y - (influence_end.y - start.y))
    } else {
        p
    }
}

/// Taking out nothing moves no cursor.
proof fn lemma_delete_nothing(cs: Seq<Cursor>, s: Position)
    ensures
        cursors_shifted_by_delete(cs, s, s) == cs,
{
    assert forall|i: int| 0 <= i < cs.len() implies cursors_shifted_by_delete(cs, s, s)[i] == cs[i] by {
        let c = cs[i];
        assert(shifted_by_delete(s, s, c.position) == c.position);
        if let Some(a) = c.selection_anchor {
            assert(shifted_by_delete(s, s, a) == a);
        }
    }
    assert(cursors_shifted_by_delete(cs, s, s) =~= cs);
}

/// Taking out text within one line moves no position to a later line or further along its
/// line.
proof fn lemma_delete_in_line_fits(cs: Seq<Cursor>, s: Position, e: Position, n: int)
    requires
        s.y == e.y,
        s.x <= e.x,
        cursors_fit(cs, n),
    ensures
        cursors_fit(cursors_shifted_by_delete(cs, s, e), n),
{
    let cs2 = cursors_shifted_by_delete(cs, s, e);
    assert forall|i: int| 0 <= i < cs2.len() implies position_fits((#[trigger] cs2[i]).position, n) && match cs2[i].selection_anchor {
        Some(a) => position_fits(a, n),
        None => true,
    } by {
        assert(cs[i] == cs[i]);
    }
}

/// Taking out text within one line leaves positions on other lines where they are, keeps a
/// position on that line there, and moves nothing when nothing is taken out.
proof fn lemma_delete_in_line(s: Position, e: Position, p: Position)
    requires
        s.y == e.y,
    ensures
        p.y != s.y ==> shifted_by_delete(s, e, p) == p,
        shifted_by_delete(s, e, p).y == p.y,
        shifted_by_delete(s, e, p).x <= p.x,
        shifted_by_delete(s, s, p) == p,
{
}

/// Taking out the white space at the end of line `y` moves the cursors on from the state where
/// it was taken out of the lines before it.
proof fn lemma_trim_step(ls: Seq<Seq<u8>>, lc: Seq<Seq<char>>, cs: Seq<Cursor>, y: int, s: Position, e: Position)
    requires
        0 <= y < ls.len(),
        y < lc.len(),
        y <= usize::MAX,
        s == (Position { x: trailing_white_start(lc[y]), y: y as usize }),
        e == (Position { x: ls[y].len() as usize, y: y as usize }),
    ensures
        cursors_shifted_by_delete(cursors_trimmed_below(ls, lc, cs, y), s, e) == cursors_trimmed_below(ls, lc, cs, y + 1),
{
    let before = cursors_trimmed_below(ls, lc, cs, y);
    let after = cursors_trimmed_below(ls, lc, cs, y + 1);
    let moved = cursors_shifted_by_delete(before, s, e);
    assert forall|i: int| 0 <= i < cs.len() implies #[trigger] moved[i] == after[i] by {
        let c = cs[i];
        lemma_trim_position_step(ls, lc, y, s, e, c.position);
        if let Some(a) = c.selection_anchor {
            lemma_trim_position_step(ls, lc, y, s, e, a);
        }
        assert(before[i] == cursor_moved(c, |p: Position| if p.y < y { trimmed_position(ls, lc, p) } else { p }));
        assert(after[i] == cursor_moved(c, |p: Position| if p.y < y + 1 { trimmed_position(ls, lc, p) } else { p }));
        assert(moved[i] == cursor_moved(before[i], |p: Position| shifted_by_delete(s, e, p)));
    }
    assert(moved =~= after);
}

/// The step of `lemma_trim_step` for one position.
proof fn lemma_trim_position_step(ls: Seq<Seq<u8>>, lc: Seq<Seq<char>>, y: int, s: Position, e: Position, p: Position)
    requires
        0 <= y < ls.len(),
        y < lc.len(),
        y <= usize::MAX,
        s == (Position { x: trailing_white_start(lc[y]), y: y as usize }),
        e == (Position { x: ls[y].len() as usize, y: y as usize }),
    ensures
        shifted_by_delete(s, e, if p.y < y { trimmed_position(ls, lc, p) } else { p })
            == if p.y < y + 1 { trimmed_position(ls, lc, p) } else { p },
{
    if p.y < y {
        let q = trimmed_position(ls, lc, p);
        lemma_delete_in_line(
            Position { x: trailing_white_start(lc[p.y as int]), y: p.y },
            Position { x: ls[p.y as int].len() as usize, y: p.y },
            p,
        );
        lemma_delete_in_line(s, e, q);
    } else if p.y == y {
        assert(trimmed_position(ls, lc, p) == shifted_by_delete(s, e, p));
    } else {
        lemma_delete_in_line(s, e, p);
    }
}

/// Taking out text that starts at byte `s.x` of its line moves a position along its line by
/// at most `s.x`, and to no later line.
proof fn lemma_delete_fits(cs: Seq<Cursor>, s: Position, e: Position, n: int)
    requires
        n >= 0,
        cursors_fit(cs, n + s.x),
    ensures
        cursors_fit(cursors_shifted_by_delete(cs, s, e), n),
{
    let cs2 = cursors_shifted_by_delete(cs, s, e);
    assert forall|i: int| 0 <= i < cs2.len() implies position_fits((#[trigger] cs2[i]).position, n) && match cs2[i].selection_anchor {
        Some(a) => position_fits(a, n),
        None => true,
    } by {
        assert(cs[i] == cs[i]);
    }
}

/// Dropping a cursor's anchor keeps the cursors within a bound.
proof fn lemma_unanchored_fits(cs: Seq<Cursor>, k: int, n: int)
    requires
        0 <= k < cs.len(),
        cursors_fit(cs, n),
    ensures
        cursors_fit(cs.update(k, anchored(cs[k], None)), n),
{
    let cs2 = cs.update(k, anchored(cs[k], None));
    assert forall|i: int| 0 <= i < cs2.len() implies position_fits((#[trigger] cs2[i]).position, n) && match cs2[i].selection_anchor {
        Some(a) => position_fits(a, n),
        None => true,
    } by {
        assert(cs[i] == cs[i]);
    }
}

/// Putting in text that reaches at most `k` bytes past its start moves a position by at most
/// `k` on each axis.
proof fn lemma_insert_fits(cs: Seq<Cursor>, s: Position, e: Position, k: int, n: int)
    requires
        insert_reach(s, e, k),
        k >= 0,
        cursors_fit(cs, n + k),
    ensures
        cursors_fit(cursors_shifted_by_insert(cs, s, e), n),
{
    let cs2 = cursors_shifted_by_insert(cs, s, e);
    assert forall|i: int| 0 <= i < cs2.len() implies position_fits((#[trigger] cs2[i]).position, n) && match cs2[i].selection_anchor {
        Some(a) => position_fits(a, n),
        None => true,
    } by {
        assert(cs[i] == cs[i]);
    }
}

/// A bound that leaves more room leaves at least as much for a smaller `m`.
proof fn lemma_fits_less(cs: Seq<Cursor>, n: int, m: int)
    requires
        cursors_fit(cs, n),
        m <= n,
    ensures
        cursors_fit(cs, m),
{
    assert forall|i: int| 0 <= i < cs.len() implies position_fits((#[trigger] cs[i]).position, m) && match cs[i].selection_anchor {
        Some(a) => position_fits(a, m),
        None => true,
    } by {
        assert(cs[i] == cs[i]);
    }
}

/// Two states of a document have the same text and annotations: the lines, what the document
/// is for, its line ending, its highlights and its tokens, and what is marked out of date.
pub open spec fn same_text(a: &Doc, b: &Doc) -> bool {
    &&& a.lines_view() == b.lines_view()
    &&& a.line_chars() == b.line_chars()
    &&& a.kind_view() == b.kind_view()
    &&& a.line_ending_view() == b.line_ending_view()
    &&& same_annotations(a, b)
    &&& undirtied(a, b)
}

/// Two states of a document have the same main cursor position history.
pub open spec fn same_cursor_history(a: &Doc, b: &Doc) -> bool {
    &&& a.cursor_undo_view() == b.cursor_undo_view()
    &&& a.cursor_redo_view() == b.cursor_redo_view()
}

/// The index of the cursor that `index` names: the one it holds, or the main (last) one.
pub open spec fn cursor_at(cs: Seq<Cursor>, index: CursorIndex) -> int {
    match index {
        CursorIndex::Index(i) => i as int,
        CursorIndex::Main => cs.len() - 1,
    }
}

/// `index` names one of the cursors `cs`.
pub open spec fn names_cursor(cs: Seq<Cursor>, index: CursorIndex) -> bool {
    0 <= cursor_at(cs, index) < cs.len()
}

/// A cursor moved to `position`, with the rest of it kept.
pub open spec fn placed(c: Cursor, position: Position) -> Cursor {
    Cursor { position, selection_anchor: c.selection_anchor, desired_visual_x: c.desired_visual_x }
}

/// A cursor with its selection anchor set to `anchor`, with the rest of it kept.
pub open spec fn anchored(c: Cursor, anchor: Option<Position>) -> Cursor {
    Cursor { position: c.position, selection_anchor: anchor, desired_visual_x: c.desired_visual_x }
}

/// A cursor made to select `selection`, or nothing: the position goes to the start of the span
/// where it stood at the start of the span it selected before, and to its end otherwise; the
/// anchor goes to the other end.
pub open spec fn with_selection(c: Cursor, selection: Option<Selection>) -> Cursor {
    match selection {
        None => anchored(c, None),
        Some(s) => {
            let at_start = match selection_of(c) {
                Some(current) => c.position == current.start,
                None => false,
            };
            if at_start {
                Cursor { position: s.start, selection_anchor: Some(s.end), desired_visual_x: c.desired_visual_x }
            } else {
                Cursor { position: s.end, selection_anchor: Some(s.start), desired_visual_x: c.desired_visual_x }
            }
        },
    }
}

/// Whether cursor `o` takes in the position `p`: within its selection, ends included, or on
/// it where it selects nothing.
pub open spec fn covers(o: Cursor, p: Position) -> bool {
    match selection_of(o) {
        Some(s) => pos_le(s.start, p) && pos_le(p, s.end),
        None => p == o.position,
    }
}

/// The first cursor from `j` on, other than cursor `i`, that takes in the position of cursor
/// `i`.
pub open spec fn first_cover(cs: Seq<Cursor>, i: int, j: int) -> Option<int>
    decreases cs.len() - j,
{
    if j < 0 || j >= cs.len() {
        None
    } else if j != i && covers(cs[j], cs[i].position) {
        Some(j)
    } else {
        first_cover(cs, i, j + 1)
    }
}

/// The cursors after each of cursors `k - 1` down to `0` that another takes in is merged
/// into the first such other: that one selects the union of the two selections, and the
/// cursor taken in goes.
pub open spec fn combined_from(cs: Seq<Cursor>, k: int) -> Seq<Cursor>
    decreases k,
{
    if k <= 0 || k > cs.len() {
        cs
    } else {
        let i = k - 1;
        match first_cover(cs, i, 0) {
            Some(j) => combined_from(
                cs.update(j, with_selection(cs[j], union_spec(selection_of(cs[j]), selection_of(cs[i])))).remove(i),
                i,
            ),
            None => combined_from(cs, i),
        }
    }
}

/// What copying at one cursor gives: the text it selects, or else its whole line and a line
/// feed.
pub open spec fn cursor_copy(ls: Seq<Seq<u8>>, c: Cursor) -> Seq<u8> {
    match selection_of(c) {
        Some(s) => text_between(ls, clamp(ls, s.start), clamp(ls, s.end)),
        None => line_copy(ls, c.position.y),
    }
}

/// Line `y` (kept within the document) and a line feed.
pub open spec fn line_copy(ls: Seq<Seq<u8>>, y: usize) -> Seq<u8> {
    text_between(ls, clamp(ls, Position { x: 0, y }), clamp(ls, line_end_at(ls, y))) + seq![0x0Au8]
}

/// What copying at cursors `0..k` gives: what each gives, with a line feed after each but the
/// main (last) cursor.
pub open spec fn copied_text(ls: Seq<Seq<u8>>, cs: Seq<Cursor>, k: int) -> Seq<u8>
    decreases k,
{
    if k <= 0 {
        Seq::empty()
    } else {
        copied_text(ls, cs, k - 1) + cursor_copy(ls, cs[k - 1]) + if k - 1 != cs.len() - 1 {
            seq![0x0Au8]
        } else {
            Seq::empty()
        }
    }
}

/// Every selection that a cursor makes has its ends within the lines, on characters.
pub open spec fn selections_on_chars(ls: Seq<Seq<u8>>, cs: Seq<Cursor>) -> bool {
    forall|i: int| 0 <= i < cs.len() ==> match #[trigger] selection_of(cs[i]) {
        Some(s) => on_char(ls, s.start) && on_char(ls, s.end),
        None => true,
    }
}

/// Where the selection of a cursor starts along its line, or zero.
pub open spec fn selection_start_x(c: Cursor) -> int {
    match selection_of(c) {
        Some(s) => s.start.x as int,
        None => 0,
    }
}

/// The lines and cursors after taking out the selection of cursor `k`, where it has one, and
/// dropping its anchor; an output document's cursors are not moved.
pub open spec fn selection_removed(ls: Seq<Seq<u8>>, cs: Seq<Cursor>, k: int, output: bool) -> (Seq<Seq<u8>>, Seq<Cursor>) {
    match selection_of(cs[k]) {
        Some(s) => {
            let (a, b) = (clamp(ls, s.start), clamp(ls, s.end));
            let cs1 = if output { cs } else { cursors_shifted_by_delete(cs, a, b) };
            (delete_lines(ls, a, b), cs1.update(k, anchored(cs1[k], None)))
        },
        None => (ls, cs),
    }
}

/// The lines and cursors after putting `t` in at `p` (kept within the lines); an output
/// document's cursors are not moved.
pub open spec fn inserted_at(ls: Seq<Seq<u8>>, cs: Seq<Cursor>, p: Position, t: Seq<char>, single_line: bool, output: bool) -> (Seq<Seq<u8>>, Seq<Cursor>) {
    if blen(t) == 0 {
        (ls, cs)
    } else {
        let q = clamp(ls, p);
        let (ls2, e) = insert_from(ls, q, t, 0, single_line);
        (ls2, if output { cs } else { cursors_shifted_by_insert(cs, q, e) })
    }
}

/// The lines and cursors after typing `t` at cursor `k`: its selection, where it has one, is
/// taken out, and `t` is put in where the cursor then is.
pub open spec fn inserted_at_cursor(ls: Seq<Seq<u8>>, cs: Seq<Cursor>, k: int, t: Seq<char>, single_line: bool, output: bool) -> (Seq<Seq<u8>>, Seq<Cursor>) {
    let (ls1, cs1) = selection_removed(ls, cs, k, output);
    inserted_at(ls1, cs1, cs1[k].position, t, single_line, output)
}

/// The lines and cursors after pasting `t` at cursor `k`: its selection, where it has one,
/// is taken out, and `t` is put in where the cursor stood before that; without a selection,
/// at the start of its line where the text was copied from whole lines.
pub open spec fn pasted_at_cursor(
    ls: Seq<Seq<u8>>,
    cs: Seq<Cursor>,
    k: int,
    t: Seq<char>,
    was_copy_implicit: bool,
    single_line: bool,
    output: bool,
) -> (Seq<Seq<u8>>, Seq<Cursor>) {
    let (ls1, cs1) = selection_removed(ls, cs, k, output);
    inserted_at(ls1, cs1, paste_point(cs[k], was_copy_implicit), t, single_line, output)
}

/// Where pasting at a cursor puts the text in, before its selection is taken out.
pub open spec fn paste_point(c: Cursor, was_copy_implicit: bool) -> Position {
    if selection_of(c) is None && was_copy_implicit {
        Position { x: 0, y: c.position.y }
    } else {
        c.position
    }
}

/// Typing text of `n` bytes at cursor `k` is defined: the cursor's selection, where it has
/// one, has its ends on characters within the lines, the text goes in on a character, and the
/// cursors leave room for the text.
pub open spec fn can_type_at(ls: Seq<Seq<u8>>, cs: Seq<Cursor>, k: int, n: int, output: bool) -> bool {
    let (ls1, cs1) = selection_removed(ls, cs, k, output);
    &&& 0 <= k < cs.len()
    &&& (selection_of(cs[k]) matches Some(s) ==> on_char(ls, s.start) && on_char(ls, s.end))
    &&& on_char(ls1, clamp(ls1, cs1[k].position))
    &&& !output ==> cursors_fit(cs, selection_start_x(cs[k]) + n)
}

/// The state of a document (its lines, its cursors, the line from which its highlights may be
/// out of date, and whether its tokens are) after typing `t` at cursor `k`.
pub open spec fn typed_at_cursor(
    st: (Seq<Seq<u8>>, Seq<Cursor>, usize, bool),
    k: int,
    t: Seq<char>,
    single_line: bool,
    output: bool,
) -> (Seq<Seq<u8>>, Seq<Cursor>, usize, bool) {
    let (ls, cs, u, dirty) = st;
    let (ls2, cs2) = inserted_at_cursor(ls, cs, k, t, single_line, output);
    let cs1 = selection_removed(ls, cs, k, output).1;
    let u1 = match selection_of(cs[k]) {
        Some(s) => marked_from(u, s.start.y),
        None => u,
    };
    (
        ls2,
        cs2,
        if blen(t) > 0 { marked_from(u1, cs1[k].position.y) } else { u1 },
        dirty || selection_of(cs[k]) is Some || blen(t) > 0,
    )
}

/// The state of a document after typing `t` at cursors `0..k`, one after another.
pub open spec fn typed_at_cursors(
    st: (Seq<Seq<u8>>, Seq<Cursor>, usize, bool),
    t: Seq<char>,
    single_line: bool,
    output: bool,
    k: int,
) -> (Seq<Seq<u8>>, Seq<Cursor>, usize, bool)
    decreases k,
{
    if k <= 0 {
        st
    } else {
        typed_at_cursor(typed_at_cursors(st, t, single_line, output, k - 1), k - 1, t, single_line, output)
    }
}

/// Typing `t` at each of cursors `0..k`, one after another, is defined at every step.
pub open spec fn can_type_at_cursors(
    st: (Seq<Seq<u8>>, Seq<Cursor>, usize, bool),
    t: Seq<char>,
    single_line: bool,
    output: bool,
    k: int,
) -> bool
    decreases k,
{
    k <= 0 || (can_type_at_cursors(st, t, single_line, output, k - 1) && {
        let before = typed_at_cursors(st, t, single_line, output, k - 1);
        can_type_at(before.0, before.1, k - 1, blen(t), output)
    })
}

/// Where typing at each of `n` cursors is defined, it is at the first `k + 1`.
proof fn lemma_can_type_prefix(
    st: (Seq<Seq<u8>>, Seq<Cursor>, usize, bool),
    t: Seq<char>,
    single_line: bool,
    output: bool,
    k: int,
    n: int,
)
    requires
        0 <= k < n,
        can_type_at_cursors(st, t, single_line, output, n),
    ensures
        can_type_at_cursors(st, t, single_line, output, k + 1),
    decreases n,
{
    if k + 1 < n {
        lemma_can_type_prefix(st, t, single_line, output, k, n - 1);
    }
}

/// Pasting text of `n` bytes at cursor `k` is defined: the cursor's selection, where it has
/// one, has its ends on characters within the lines, the text goes in on a character, and the
/// cursors leave room for the text.
pub open spec fn can_paste_at(ls: Seq<Seq<u8>>, cs: Seq<Cursor>, k: int, n: int, was_copy_implicit: bool, output: bool) -> bool {
    let ls1 = selection_removed(ls, cs, k, output).0;
    &&& 0 <= k < cs.len()
    &&& (selection_of(cs[k]) matches Some(s) ==> on_char(ls, s.start) && on_char(ls, s.end))
    &&& on_char(ls1, clamp(ls1, paste_point(cs[k], was_copy_implicit)))
    &&& !output ==> cursors_fit(cs, selection_start_x(cs[k]) + n)
}

/// The state of a document (as for typing) after pasting `t` at cursor `k`.
pub open spec fn pasted_at_cursor_state(
    st: (Seq<Seq<u8>>, Seq<Cursor>, usize, bool),
    k: int,
    t: Seq<char>,
    was_copy_implicit: bool,
    single_line: bool,
    output: bool,
) -> (Seq<Seq<u8>>, Seq<Cursor>, usize, bool) {
    let (ls, cs, u, dirty) = st;
    let (ls2, cs2) = pasted_at_cursor(ls, cs, k, t, was_copy_implicit, single_line, output);
    let u1 = match selection_of(cs[k]) {
        Some(s) => marked_from(u, s.start.y),
        None => u,
    };
    (
        ls2,
        cs2,
        if blen(t) > 0 { marked_from(u1, paste_point(cs[k], was_copy_implicit).y) } else { u1 },
        dirty || selection_of(cs[k]) is Some || blen(t) > 0,
    )
}

/// The state after pasting all of `t` at cursors `0..k`, one after another, and whether every
/// step is defined.
pub open spec fn pasted_at_cursors(
    st: (Seq<Seq<u8>>, Seq<Cursor>, usize, bool),
    t: Seq<char>,
    was_copy_implicit: bool,
    single_line: bool,
    output: bool,
    k: int,
) -> ((Seq<Seq<u8>>, Seq<Cursor>, usize, bool), bool)
    decreases k,
{
    if k <= 0 {
        (st, true)
    } else {
        let (st1, ok1) = pasted_at_cursors(st, t, was_copy_implicit, single_line, output, k - 1);
        (
            pasted_at_cursor_state(st1, k - 1, t, was_copy_implicit, single_line, output),
            ok1 && can_paste_at(st1.0, st1.1, k - 1, blen(t), was_copy_implicit, output),
        )
    }
}

/// Where pasting at each of `n` cursors is defined, it is at the first `k + 1`.
proof fn lemma_can_paste_prefix(
    st: (Seq<Seq<u8>>, Seq<Cursor>, usize, bool),
    t: Seq<char>,
    was_copy_implicit: bool,
    single_line: bool,
    output: bool,
    k: int,
    n: int,
)
    requires
        0 <= k < n,
        pasted_at_cursors(st, t, was_copy_implicit, single_line, output, n).1,
    ensures
        pasted_at_cursors(st, t, was_copy_implicit, single_line, output, k + 1).1,
    decreases n,
{
    if k + 1 < n {
        lemma_can_paste_prefix(st, t, was_copy_implicit, single_line, output, k, n - 1);
    }
}

/// The characters of the grapheme of `t` that starts at byte `i`.
pub open spec fn piece(t: Seq<char>, i: usize) -> Seq<char> {
    decode_utf8(grapheme_bytes(t, i))
}

/// Pasting line `line_i` (of `lpc` per cursor) at cursor `k`, from byte `i` of `t`: each
/// grapheme before a line feed is pasted on its own, and the line feed too unless the line is
/// the cursor's last. Gives the state, the byte where the next line starts, and whether every
/// step is defined.
pub open spec fn paste_line_from(
    st: (Seq<Seq<u8>>, Seq<Cursor>, usize, bool),
    t: Seq<char>,
    i: usize,
    k: int,
    line_i: int,
    lpc: int,
    was_copy_implicit: bool,
    single_line: bool,
    output: bool,
) -> ((Seq<Seq<u8>>, Seq<Cursor>, usize, bool), usize, bool)
    decreases blen(t) - i,
{
    if !can_step(t, i) {
        (st, i, true)
    } else {
        let e = grapheme_end(t, i);
        let g = piece(t, i);
        let ok = can_paste_at(st.0, st.1, k, blen(g), was_copy_implicit, output);
        let next = pasted_at_cursor_state(st, k, g, was_copy_implicit, single_line, output);
        if grapheme_bytes(t, i) == seq![0x0Au8] {
            if line_i < lpc - 1 {
                (next, e, ok)
            } else {
                (st, e, true)
            }
        } else {
            let rest = paste_line_from(next, t, e, k, line_i, lpc, was_copy_implicit, single_line, output);
            (rest.0, rest.1, ok && rest.2)
        }
    }
}

/// Pasting lines `line_i..lpc` at cursor `k`, from byte `i` of `t`.
pub open spec fn paste_lines(
    st: (Seq<Seq<u8>>, Seq<Cursor>, usize, bool),
    t: Seq<char>,
    i: usize,
    k: int,
    line_i: int,
    lpc: int,
    was_copy_implicit: bool,
    single_line: bool,
    output: bool,
) -> ((Seq<Seq<u8>>, Seq<Cursor>, usize, bool), usize, bool)
    decreases lpc - line_i,
{
    if line_i >= lpc {
        (st, i, true)
    } else {
        let first = paste_line_from(st, t, i, k, line_i, lpc, was_copy_implicit, single_line, output);
        let rest = paste_lines(first.0, t, first.1, k, line_i + 1, lpc, was_copy_implicit, single_line, output);
        (rest.0, rest.1, first.2 && rest.2)
    }
}

/// Pasting `lpc` lines of `t` at each of cursors `k..n`, from byte `i` of `t`.
pub open spec fn paste_spread(
    st: (Seq<Seq<u8>>, Seq<Cursor>, usize, bool),
    t: Seq<char>,
    i: usize,
    k: int,
    n: int,
    lpc: int,
    was_copy_implicit: bool,
    single_line: bool,
    output: bool,
) -> ((Seq<Seq<u8>>, Seq<Cursor>, usize, bool), bool)
    decreases n - k,
{
    if k >= n {
        (st, true)
    } else {
        let first = paste_lines(st, t, i, k, 0, lpc, was_copy_implicit, single_line, output);
        let rest = paste_spread(first.0, t, first.1, k + 1, n, lpc, was_copy_implicit, single_line, output);
        (rest.0, first.2 && rest.1)
    }
}

/// The number of line feeds among bytes `0..i` of `b`.
pub open spec fn line_feeds(b: Seq<u8>, i: int) -> int
    decreases i,
{
    if i <= 0 {
        0
    } else {
        line_feeds(b, i - 1) + if b[i - 1] == 0x0Au8 { 1int } else { 0int }
    }
}

/// Pasting `t` at each of `n` cursors: where there are several and the lines of `t` share out
/// evenly among them, each cursor gets its share of the lines, grapheme by grapheme; otherwise
/// each cursor gets all of `t`. Gives the state and whether every step is defined.
pub open spec fn pasted_everywhere(
    st: (Seq<Seq<u8>>, Seq<Cursor>, usize, bool),
    t: Seq<char>,
    was_copy_implicit: bool,
    single_line: bool,
    output: bool,
    n: int,
) -> ((Seq<Seq<u8>>, Seq<Cursor>, usize, bool), bool) {
    let line_count = line_feeds(encode_utf8(t), blen(t)) + 1;
    if n > 1 && line_count % n == 0 {
        paste_spread(st, t, 0, 0, n, line_count / n, was_copy_implicit, single_line, output)
    } else {
        pasted_at_cursors(st, t, was_copy_implicit, single_line, output, n)
    }
}

/// What typing and pasting change of a document: its lines, its cursors, the line from which
/// its highlights may be out of date, and whether its tokens are.
pub open spec fn edit_state(d: &Doc) -> (Seq<Seq<u8>>, Seq<Cursor>, usize, bool) {
    (d.lines_view(), d.cursors_view(), d.unhighlighted_view(), d.needs_tokenization_view())
}

/// What typing and pasting keep of a document: what it is for, its line ending, its highlights
/// and tokens, and the main cursor's position history.
pub open spec fn same_frame(a: &Doc, b: &Doc) -> bool {
    &&& b.kind_view() == a.kind_view()
    &&& b.line_ending_view() == a.line_ending_view()
    &&& same_annotations(a, b)
    &&& same_cursor_history(a, b)
}

/// A cursor made to select `selection`, with its position at the end.
pub open spec fn selecting(c: Cursor, selection: Selection) -> Cursor {
    Cursor { position: selection.end, selection_anchor: Some(selection.start), desired_visual_x: c.desired_visual_x }
}

/// The cursors, each made to select its line with the line break.
pub open spec fn lines_selected(ls: Seq<Seq<u8>>, lc: Seq<Seq<char>>, cs: Seq<Cursor>) -> Seq<Cursor> {
    cs.map_values(|c: Cursor| selecting(c, line_selection(ls, lc, c.position.y)))
}

/// The cursors, each made to select the word it is on.
pub open spec fn words_selected(ls: Seq<Seq<u8>>, lc: Seq<Seq<char>>, cs: Seq<Cursor>) -> Seq<Cursor> {
    cs.map_values(|c: Cursor| selecting(c, word_selection(ls, lc, c.position)))
}

/// Whether a grapheme belongs to an identifier: letters and digits, or an underscore.
pub open spec fn is_word_grapheme(g: Seq<u8>) -> bool {
    all_in_class(CharClass::Alphanumeric, decode_utf8(g)) || g == seq![0x5Fu8]
}

/// Walking back from `s`, grapheme by grapheme along its line, over the graphemes of an
/// identifier: where the completion prefix that ends at `e` starts, or none where it would be
/// empty and does not follow a '.' or a ':'. `fuel` bounds the steps.
pub open spec fn completion_start(ls: Seq<Seq<u8>>, lc: Seq<Seq<char>>, s: Position, e: Position, fuel: nat) -> Option<Position>
    decreases fuel,
{
    if s.x == 0 || fuel == 0 {
        Some(s)
    } else {
        let n = Position { x: unicode_prev_boundary(lc[s.y as int], s.x, ls[s.y as int].len() as usize)->0, y: s.y };
        let g = grapheme_at(ls, lc, n);
        if is_word_grapheme(g) {
            completion_start(ls, lc, n, e, (fuel - 1) as nat)
        } else if g != seq![0x2Eu8] && g != seq![0x3Au8] && s == e {
            None
        } else {
            Some(s)
        }
    }
}

/// Where line `y` starts after its white space, or zero past the last line.
pub open spec fn line_start_at(ls: Seq<Seq<u8>>, y: int) -> int {
    if 0 <= y < ls.len() { white_prefix_end(chars_of(ls)[y], 0) as int } else { 0 }
}

/// Whether line `y` holds only white space (a line past the last one does).
pub open spec fn line_blank(ls: Seq<Seq<u8>>, y: int) -> bool {
    line_start_at(ls, y) == if 0 <= y < ls.len() { ls[y].len() as int } else { 0 }
}

/// Taking the comment `c` out of line `y` is defined.
pub open spec fn can_uncomment(ls: Seq<Seq<u8>>, cs: Seq<Cursor>, c: Seq<char>, y: usize, output: bool) -> bool {
    &&& y < ls.len() ==> ls[y as int].len() + blen(c) <= usize::MAX
    &&& line_commented(ls, chars_of(ls), c, y) ==> boundary(ls[y as int], white_prefix_end(chars_of(ls)[y as int], 0) + blen(c))
    &&& !output && y < ls.len() ==> cursors_fit(cs, ls[y as int].len() as int)
}

/// The state (as for typing) after taking the comment `c` out of line `y`, where it is
/// commented with it.
pub open spec fn uncommented_state(
    st: (Seq<Seq<u8>>, Seq<Cursor>, usize, bool),
    c: Seq<char>,
    y: usize,
    output: bool,
) -> (Seq<Seq<u8>>, Seq<Cursor>, usize, bool) {
    let (ls, cs, u, dirty) = st;
    let lc = chars_of(ls);
    let n = blen(c);
    if !line_commented(ls, lc, c, y) {
        st
    } else {
        (
            uncommented_lines(ls, lc, y, n),
            if output { cs } else { uncommented_cursors(ls, lc, cs, y, n) },
            if uncomment_changes(ls, lc, y, n) { marked_from(u, y) } else { u },
            dirty || uncomment_changes(ls, lc, y, n),
        )
    }
}

/// Putting the comment `c` in at `p` is defined.
pub open spec fn can_comment(ls: Seq<Seq<u8>>, cs: Seq<Cursor>, c: Seq<char>, p: Position, output: bool) -> bool {
    &&& on_char(ls, clamp(ls, p))
    &&& !output ==> cursors_fit(cs, 1 + blen(c))
}

/// The state (as for typing) after putting a space and the comment `c` in at `p`.
pub open spec fn commented_state(
    st: (Seq<Seq<u8>>, Seq<Cursor>, usize, bool),
    c: Seq<char>,
    p: Position,
    single_line: bool,
    output: bool,
) -> (Seq<Seq<u8>>, Seq<Cursor>, usize, bool) {
    let (ls, cs, u, dirty) = st;
    (
        commented_lines(ls, p, c, single_line),
        if output { cs } else { commented_cursors(ls, cs, p, c, single_line) },
        marked_from(u, p.y),
        true,
    )
}

/// Taking the comment `c` out of each of lines `y..=b` that is not blank: the state, the
/// least line start among those lines (from `mx` on), whether some line was commented (or
/// `did`), and whether every step is defined.
pub open spec fn uncomment_pass(
    st: (Seq<Seq<u8>>, Seq<Cursor>, usize, bool),
    c: Seq<char>,
    y: int,
    b: int,
    mx: int,
    did: bool,
    output: bool,
) -> ((Seq<Seq<u8>>, Seq<Cursor>, usize, bool), int, bool, bool)
    decreases b + 1 - y,
{
    if y > b || y < 0 || y > usize::MAX {
        (st, mx, did, true)
    } else if line_blank(st.0, y) {
        uncomment_pass(st, c, y + 1, b, mx, did, output)
    } else {
        let ls = st.0;
        let start = line_start_at(ls, y);
        let here = line_commented(ls, chars_of(ls), c, y as usize);
        let ok = can_uncomment(ls, st.1, c, y as usize, output);
        let rest = uncomment_pass(
            uncommented_state(st, c, y as usize, output),
            c,
            y + 1,
            b,
            if start < mx { start } else { mx },
            here || did,
            output,
        );
        (rest.0, rest.1, rest.2, ok && rest.3)
    }
}

/// Putting the comment `c` in at byte `mx` of each of lines `y..=b` that is not blank: the
/// state, and whether every step is defined.
pub open spec fn comment_pass(
    st: (Seq<Seq<u8>>, Seq<Cursor>, usize, bool),
    c: Seq<char>,
    y: int,
    b: int,
    mx: usize,
    single_line: bool,
    output: bool,
) -> ((Seq<Seq<u8>>, Seq<Cursor>, usize, bool), bool)
    decreases b + 1 - y,
{
    if y > b || y < 0 || y > usize::MAX {
        (st, true)
    } else if line_blank(st.0, y) {
        comment_pass(st, c, y + 1, b, mx, single_line, output)
    } else {
        let p = Position { x: mx, y: y as usize };
        let rest = comment_pass(commented_state(st, c, p, single_line, output), c, y + 1, b, mx, single_line, output);
        (rest.0, can_comment(st.0, st.1, c, p, output) && rest.1)
    }
}

/// The lines that toggling comments at a cursor works on: those of its selection, without a
/// last line of which nothing is selected, or its own line.
pub open spec fn comment_lines_of(c: Cursor) -> Selection {
    selection_trimmed(match selection_of(c) {
        Some(s) => s,
        None => Selection { start: c.position, end: c.position },
    })
}

/// Toggling the comment `c` at cursor `k`: the comment is taken out of the lines that are
/// commented with it; where none was, it is put in at the least line start of the lines that
/// are not blank. Gives the state and whether every step is defined.
pub open spec fn toggled_at_cursor(
    st: (Seq<Seq<u8>>, Seq<Cursor>, usize, bool),
    c: Seq<char>,
    k: int,
    single_line: bool,
    output: bool,
) -> ((Seq<Seq<u8>>, Seq<Cursor>, usize, bool), bool) {
    let sel = comment_lines_of(st.1[k]);
    let un = uncomment_pass(st, c, sel.start.y as int, sel.end.y as int, usize::MAX as int, false, output);
    if un.2 {
        (un.0, un.3)
    } else {
        let co = comment_pass(un.0, c, sel.start.y as int, sel.end.y as int, un.1 as usize, single_line, output);
        (co.0, un.3 && co.1)
    }
}

/// Toggling the comment `c` at cursors `0..k`, one after another.
pub open spec fn toggled_at_cursors(
    st: (Seq<Seq<u8>>, Seq<Cursor>, usize, bool),
    c: Seq<char>,
    single_line: bool,
    output: bool,
    k: int,
) -> ((Seq<Seq<u8>>, Seq<Cursor>, usize, bool), bool)
    decreases k,
{
    if k <= 0 {
        (st, true)
    } else {
        let before = toggled_at_cursors(st, c, single_line, output, k - 1);
        let here = toggled_at_cursor(before.0, c, k - 1, single_line, output);
        (here.0, before.1 && here.1)
    }
}

/// Where toggling at each of `n` cursors is defined, it is at the first `k + 1`.
proof fn lemma_can_toggle_prefix(
    st: (Seq<Seq<u8>>, Seq<Cursor>, usize, bool),
    c: Seq<char>,
    single_line: bool,
    output: bool,
    k: int,
    n: int,
)
    requires
        0 <= k < n,
        toggled_at_cursors(st, c, single_line, output, n).1,
    ensures
        toggled_at_cursors(st, c, single_line, output, k + 1).1,
    decreases n,
{
    if k + 1 < n {
        lemma_can_toggle_prefix(st, c, single_line, output, k, n - 1);
    }
}

/// The cursors after cursor `i` starts a selection at its position (where `should_select` and
/// it has no anchor) or drops its anchor (where not `should_select` and it has one).
pub open spec fn selection_updated(cs: Seq<Cursor>, i: int, should_select: bool) -> Seq<Cursor> {
    let c = cs[i];
    if should_select && c.selection_anchor is None {
        cs.update(i, anchored(c, Some(c.position)))
    } else if !should_select && c.selection_anchor is Some {
        cs.update(i, anchored(c, None))
    } else {
        cs
    }
}

/// The main cursor's position history after cursor `i` of `cs` came from `last`: where it is
/// the main cursor and moved by at least the threshold of lines, `last` is kept to go back to
/// and the positions to go forward to are forgotten.
pub open spec fn history_after_move(
    undo: Seq<Position>,
    redo: Seq<Position>,
    cs: Seq<Cursor>,
    i: int,
    last: Position,
) -> (Seq<Position>, Seq<Position>) {
    let y = cs[i].position.y;
    let distance = if y >= last.y { y - last.y } else { last.y - y };
    if i == cs.len() - 1 && distance >= CURSOR_POSITION_HISTORY_THRESHOLD {
        (undo.push(last), Seq::empty())
    } else {
        (undo, redo)
    }
}

/// The cursors and the main cursor's position history after cursor `i` jumps to `target`
/// (kept within the lines), starting or dropping its selection as `should_select` says.
pub open spec fn jumped(
    ls: Seq<Seq<u8>>,
    st: (Seq<Cursor>, Seq<Position>, Seq<Position>),
    i: int,
    target: Position,
    should_select: bool,
) -> (Seq<Cursor>, Seq<Position>, Seq<Position>) {
    let (cs, undo, redo) = st;
    let cs1 = selection_updated(cs, i, should_select);
    let cs2 = cs1.update(i, placed(cs1[i], clamp(ls, target)));
    let (u, r) = history_after_move(undo, redo, cs2, i, cs[i].position);
    (cs2, u, r)
}

/// Cursors `0..k`, one after another, each jumping to where `f` takes its position.
pub open spec fn all_jumped(
    ls: Seq<Seq<u8>>,
    st: (Seq<Cursor>, Seq<Position>, Seq<Position>),
    f: spec_fn(Position) -> Position,
    should_select: bool,
    k: int,
) -> (Seq<Cursor>, Seq<Position>, Seq<Position>)
    decreases k,
{
    if k <= 0 {
        st
    } else {
        let before = all_jumped(ls, st, f, should_select, k - 1);
        jumped(ls, before, k - 1, f(before.0[k - 1].position), should_select)
    }
}

/// The cursors and the main cursor's position history of a document.
pub open spec fn cursor_state(d: &Doc) -> (Seq<Cursor>, Seq<Position>, Seq<Position>) {
    (d.cursors_view(), d.cursor_undo_view(), d.cursor_redo_view())
}

/// The text a single-line selection holds.
pub open spec fn selected_text(ls: Seq<Seq<u8>>, s: Selection) -> Seq<u8> {
    ls[s.start.y as int].subrange(s.start.x as int, s.end.x as int)
}

/// Where the next occurrence of what cursor `c` selects (`s`, on one line) starts, searching
/// forward from the cursor and going round.
pub open spec fn next_occurrence(ls: Seq<Seq<u8>>, c: Cursor, s: Selection) -> Option<Position> {
    found_at(search_forward_from(ls, selected_text(ls, s), clamp(ls, c.position), true))
}

/// The cursors and the main cursor's history after the main cursor is sent back to the
/// latest position of its history, where there is one.
pub open spec fn cursor_undone(st: (Seq<Cursor>, Seq<Position>, Seq<Position>)) -> (Seq<Cursor>, Seq<Position>, Seq<Position>) {
    let (cs, undo, redo) = st;
    if undo.len() == 0 {
        st
    } else {
        (cs.update(cs.len() - 1, placed(cs.last(), undo.last())), undo.drop_last(), redo.push(cs.last().position))
    }
}

/// The cursors and the main cursor's history after the main cursor is sent forward to the
/// latest position it was sent back from, where there is one.
pub open spec fn cursor_redone(st: (Seq<Cursor>, Seq<Position>, Seq<Position>)) -> (Seq<Cursor>, Seq<Position>, Seq<Position>) {
    let (cs, undo, redo) = st;
    if redo.len() == 0 {
        st
    } else {
        (cs.update(cs.len() - 1, placed(cs.last(), redo.last())), undo.push(cs.last().position), redo.drop_last())
    }
}

/// The cursors, each with its position and selection anchor kept within the lines.
pub open spec fn cursors_clamped(ls: Seq<Seq<u8>>, cs: Seq<Cursor>) -> Seq<Cursor> {
    cs.map_values(|c: Cursor| cursor_moved(c, |p: Position| clamp(ls, p)))
}

/// The line from which highlights may be out of date after marking line `y`, where they were
/// out of date from line `u`.
pub open spec fn marked_from(u: usize, y: usize) -> usize {
    if y < u { y } else { u }
}

/// The first of lines `0..n` that ends with white space.
pub open spec fn first_trimmed(ls: Seq<Seq<u8>>, lc: Seq<Seq<char>>, n: int) -> Option<int>
    decreases n,
{
    if n <= 0 {
        None
    } else {
        match first_trimmed(ls, lc, n - 1) {
            Some(k) => Some(k),
            None => if trailing_white_start(lc[n - 1]) < ls[n - 1].len() {
                Some(n - 1)
            } else {
                None
            },
        }
    }
}

/// The first line that ends with white space is one of those looked at.
proof fn lemma_first_trimmed_below(ls: Seq<Seq<u8>>, lc: Seq<Seq<char>>, n: int)
    ensures
        first_trimmed(ls, lc, n) matches Some(k) ==> 0 <= k < n,
    decreases n,
{
    if n > 0 {
        lemma_first_trimmed_below(ls, lc, n - 1);
    }
}

/// Whether line `y` starts, after its white space, with the comment `comment` and goes on
/// after it.
pub open spec fn line_commented(ls: Seq<Seq<u8>>, lc: Seq<Seq<char>>, comment: Seq<char>, y: usize) -> bool {
    &&& y < lc.len()
    &&& white_prefix_end(lc[y as int], 0) + blen(comment) < ls[y as int].len()
    &&& commented_from(lc[y as int], comment, white_prefix_end(lc[y as int], 0), 0)
}

/// The characters of each line.
pub open spec fn chars_of(ls: Seq<Seq<u8>>) -> Seq<Seq<char>> {
    ls.map_values(|l: Seq<u8>| decode_utf8(l))
}

/// The lines after putting a space and then `comment` in at `p`, each at `p` kept within
/// the lines as they are at that moment.
pub open spec fn commented_lines(ls: Seq<Seq<u8>>, p: Position, comment: Seq<char>, single_line: bool) -> Seq<Seq<u8>> {
    let mid = insert_from(ls, clamp(ls, p), seq![' '], 0, single_line).0;
    if blen(comment) == 0 {
        mid
    } else {
        insert_from(mid, clamp(mid, p), comment, 0, single_line).0
    }
}

/// The cursors after putting a space and then `comment` in at `p`, as in `commented_lines`.
pub open spec fn commented_cursors(
    ls: Seq<Seq<u8>>,
    cs: Seq<Cursor>,
    p: Position,
    comment: Seq<char>,
    single_line: bool,
) -> Seq<Cursor> {
    let (mid, e) = insert_from(ls, clamp(ls, p), seq![' '], 0, single_line);
    let cs1 = cursors_shifted_by_insert(cs, clamp(ls, p), e);
    if blen(comment) == 0 {
        cs1
    } else {
        cursors_shifted_by_insert(cs1, clamp(mid, p), insert_from(mid, clamp(mid, p), comment, 0, single_line).1)
    }
}

/// Where the comment of line `y` (with `n` bytes) starts and ends.
pub open spec fn comment_span(lc: Seq<Seq<char>>, y: usize, n: int) -> (Position, Position) {
    let ws = white_prefix_end(lc[y as int], 0);
    (Position { x: ws, y }, Position { x: (ws + n) as usize, y })
}

/// The lines without the comment of line `y`: without its `n` bytes after the white space
/// the line starts with, and without a space that then stands there.
pub open spec fn uncommented_lines(ls: Seq<Seq<u8>>, lc: Seq<Seq<char>>, y: usize, n: int) -> Seq<Seq<u8>> {
    let (s, e) = comment_span(lc, y, n);
    let l1 = delete_lines(ls, s, e);
    if grapheme_at(l1, chars_of(l1), s) == seq![0x20u8] {
        delete_lines(l1, s, moved(l1, chars_of(l1), s, 1, 0))
    } else {
        l1
    }
}

/// The cursors after taking the comment of line `y` (with `n` bytes) out, as in
/// `uncommented_lines`.
pub open spec fn uncommented_cursors(ls: Seq<Seq<u8>>, lc: Seq<Seq<char>>, cs: Seq<Cursor>, y: usize, n: int) -> Seq<Cursor> {
    let (s, e) = comment_span(lc, y, n);
    let l1 = delete_lines(ls, s, e);
    let cs1 = cursors_shifted_by_delete(cs, s, e);
    if grapheme_at(l1, chars_of(l1), s) == seq![0x20u8] {
        cursors_shifted_by_delete(cs1, s, moved(l1, chars_of(l1), s, 1, 0))
    } else {
        cs1
    }
}

/// Whether taking out a comment of `n` bytes from line `y` takes out anything: its bytes, or
/// a space after them.
pub open spec fn uncomment_changes(ls: Seq<Seq<u8>>, lc: Seq<Seq<char>>, y: usize, n: int) -> bool {
    let (s, e) = comment_span(lc, y, n);
    let l1 = delete_lines(ls, s, e);
    n > 0 || (grapheme_at(l1, chars_of(l1), s) == seq![0x20u8] && moved(l1, chars_of(l1), s, 1, 0) != s)
}

/// The lines after taking out the text from `s` to `e`.
pub open spec fn delete_lines(ls: Seq<Seq<u8>>, s: Position, e: Position) -> Seq<Seq<u8>> {
    if s == e {
        ls
    } else if s.y == e.y {
        let l = ls[s.y as int];
        ls.update(s.y as int, l.subrange(0, s.x as int) + l.subrange(e.x as int, l.len() as int))
    } else {
        ls.subrange(0, s.y as int).push(
            ls[s.y as int].subrange(0, s.x as int) + ls[e.y as int].subrange(e.x as int, ls[e.y as int].len() as int),
        ) + ls.subrange(e.y + 1, ls.len() as int)
    }
}

/// Whether the grapheme `g` is a carriage return and a line feed.
fn is_crlf(g: &str) -> (r: bool)
    ensures
        r == (bytes(g) == seq![0x0Du8, 0x0Au8]),
{
    let b = g.as_bytes();
    let r = b.len() == 2 && b[0] == 0x0D && b[1] == 0x0A;
    proof {
        if r {
            assert(b@ =~= seq![0x0Du8, 0x0Au8]);
        }
    }
    r
}

/// Where the white space that `l` starts with ends, as a byte offset: grapheme by grapheme
/// from `i`.
pub open spec fn white_prefix_end(l: Seq<char>, i: usize) -> usize
    decreases blen(l) - i,
{
    if can_step(l, i) && all_in_class(CharClass::Whitespace, decode_utf8(grapheme_bytes(l, i))) {
        white_prefix_end(l, grapheme_end(l, i))
    } else {
        i
    }
}

/// Whether the graphemes of `comment` from byte `j` on are those of `line` from byte `i` on,
/// where the line is walked by a cursor made for the length of the comment; where that
/// cursor finds no boundary the comparison ends there, in agreement.
pub open spec fn commented_from(line: Seq<char>, comment: Seq<char>, i: usize, j: usize) -> bool
    decreases blen(comment) - j,
{
    if can_step(comment, j) {
        match cursor_next(line, i, blen(comment) as usize) {
            None => true,
            Some(e) => if encode_utf8(line).subrange(i as int, e as int) == grapheme_bytes(comment, j) {
                commented_from(line, comment, e, grapheme_end(comment, j))
            } else {
                false
            },
        }
    } else {
        true
    }
}

/// How many lines the main cursor has to move for its history to keep where it was.
pub const CURSOR_POSITION_HISTORY_THRESHOLD: usize = 10;

/// The lines of a document, its cursors and what it is for; the rest of an editor's
/// document (its file path and save state, its edit history and its language server) is kept
/// beside it.
pub struct Doc {
    lines: Vec<String>,
    cursors: Vec<Cursor>,
    cursor_position_undo_history: Vec<Position>,
    cursor_position_redo_history: Vec<Position>,
    line_ending: LineEnding,
    syntax_highlighter: SyntaxHighlighter,
    unhighlighted_line_y: usize,
    tokenizer: Tokenizer,
    needs_tokenization: bool,
    kind: DocKind,
    usages: usize,
}

impl Doc {
    /// The bytes of the lines.
    pub closed spec fn lines_view(&self) -> Seq<Seq<u8>> {
        line_bytes(self.lines@)
    }

    /// What the document is for.
    pub closed spec fn kind_view(&self) -> DocKind {
        self.kind
    }

    /// How the document's lines end in its file.
    pub closed spec fn line_ending_view(&self) -> LineEnding {
        self.line_ending
    }

    /// The highlight states of the lines.
    pub closed spec fn highlights_view(&self) -> Seq<LineView> {
        self.syntax_highlighter.lines()
    }

    /// The first line whose highlights may be out of date.
    pub closed spec fn unhighlighted_view(&self) -> usize {
        self.unhighlighted_line_y
    }

    /// The identifiers the document's tokenizer holds.
    pub closed spec fn tokens_view(&self) -> Set<Seq<char>> {
        self.tokenizer.tokens_view()
    }

    /// Whether the tokenizer has read the lines once, so that its trie has a root.
    pub closed spec fn tokens_ready(&self) -> bool {
        self.tokenizer.ready()
    }

    /// Whether the lines changed since the tokenizer last read them.
    pub closed spec fn needs_tokenization_view(&self) -> bool {
        self.needs_tokenization
    }

    /// The characters of the lines.
    pub closed spec fn line_chars(&self) -> Seq<Seq<char>> {
        self.lines@.map_values(|l: String| l@)
    }

    /// The cursors; the last one is the main cursor.
    pub closed spec fn cursors_view(&self) -> Seq<Cursor> {
        self.cursors@
    }

    /// The positions the main cursor can be sent back to, the latest last.
    pub closed spec fn cursor_undo_view(&self) -> Seq<Position> {
        self.cursor_position_undo_history@
    }

    /// The positions the main cursor can be sent forward to again, the latest last.
    pub closed spec fn cursor_redo_view(&self) -> Seq<Position> {
        self.cursor_position_redo_history@
    }

    /// How many users the document has.
    pub closed spec fn usages_view(&self) -> usize {
        self.usages
    }

    /// A document always has a line and a cursor.
    pub closed spec fn wf(&self) -> bool {
        &&& self.lines@.len() > 0
        &&& self.cursors@.len() > 0
    }

    /// An empty document: one empty line.
    pub fn new(kind: DocKind) -> (r: Self)
        ensures
            r.wf(),
            r.lines_view() == seq![Seq::<u8>::empty()],
            r.kind_view() == kind,
            r.line_ending_view() == LineEnding::CrLf,
            r.highlights_view() == Seq::<LineView>::empty(),
            r.unhighlighted_view() == 0,
            r.tokens_view() == Set::<Seq<char>>::empty(),
            !r.needs_tokenization_view(),
            r.cursors_view() == seq![first_cursor()],
            r.cursor_undo_view() == Seq::<Position>::empty(),
            r.cursor_redo_view() == Seq::<Position>::empty(),
            r.usages_view() == 0,
    {
        let mut lines: Vec<String> = Vec::new();
        lines.push(String::new());
        let mut cursors: Vec<Cursor> = Vec::new();
        cursors.push(Cursor::new(Position::zero(), 0));
        let r = Self {
            lines,
            cursors,
            cursor_position_undo_history: Vec::new(),
            cursor_position_redo_history: Vec::new(),
            line_ending: LineEnding::CrLf,
            syntax_highlighter: SyntaxHighlighter::new(),
            unhighlighted_line_y: 0,
            tokenizer: Tokenizer::new(),
            needs_tokenization: false,
            kind,
            usages: 0,
        };
        proof {
            assert(r.lines_view() =~= seq![Seq::<u8>::empty()]);
            assert(r.cursors_view() =~= seq![first_cursor()]);
        }
        r
    }

    /// A copy of the document's lines and kind, with one cursor at the start and nothing
    /// highlighted, to work out edits on.
    fn tmp_clone(&self) -> (r: Self)
        requires
            self.wf(),
        ensures
            r.wf(),
            r.lines_view() == self.lines_view(),
            r.line_chars() == self.line_chars(),
            r.kind_view() == self.kind_view(),
            r.cursors_view() == seq![first_cursor()],
            r.unhighlighted_view() == 0,
            !r.needs_tokenization_view(),
    {
        let mut lines: Vec<String> = Vec::new();
        let mut k: usize = 0;
        while k < self.lines.len()
            invariant
                k <= self.lines@.len(),
                lines@ == self.lines@.take(k as int),
            decreases self.lines@.len() - k,
        {
            lines.push(self.lines[k].clone());
            proof {
                assert(self.lines@.take(k + 1) =~= self.lines@.take(k as int).push(self.lines@[k as int]));
            }
            k = k + 1;
        }
        proof {
            assert(self.lines@.take(k as int) =~= self.lines@);
        }
        let mut cursors: Vec<Cursor> = Vec::new();
        cursors.push(Cursor::new(Position::zero(), 0));
        let r = Self {
            lines,
            cursors,
            cursor_position_undo_history: Vec::new(),
            cursor_position_redo_history: Vec::new(),
            line_ending: LineEnding::CrLf,
            syntax_highlighter: SyntaxHighlighter::new(),
            unhighlighted_line_y: 0,
            tokenizer: Tokenizer::new(),
            needs_tokenization: false,
            kind: self.kind,
            usages: 0,
        };
        proof {
            assert(r.cursors_view() =~= seq![first_cursor()]);
        }
        r
    }

    /// Makes the edits one after another, moving the ranges of the edits still to come by
    /// each edit made.
    #[verifier::rlimit(60)]
    fn apply_edits_in_place(&mut self, edits: &mut Vec<TextEdit>, line_pool: &mut LinePool)
        requires
            old(self).wf(),
            can_apply_edits(
                edit_state(old(self)),
                old(edits)@,
                old(self).kind_view() == DocKind::SingleLine,
                old(self).kind_view() == DocKind::Output,
            ),
        ensures
            final(self).wf(),
            final(self).kind_view() == old(self).kind_view(),
            (edit_state(final(self)), final(edits)@) == edits_applied(
                edit_state(old(self)),
                old(edits)@,
                old(self).kind_view() == DocKind::SingleLine,
                old(self).kind_view() == DocKind::Output,
            ),
    {
        let ghost single = self.kind_view() == DocKind::SingleLine;
        let ghost output = self.kind_view() == DocKind::Output;
        let ghost target = edits_applied(edit_state(self), edits@, single, output);
        let n = edits.len();
        let mut i: usize = 0;
        proof {
            assert(edits@.skip(0) =~= edits@);
            assert(edits@.take(0) + target.1 =~= target.1);
        }
        while i < n
            invariant
                self.wf(),
                self.kind_view() == old(self).kind_view(),
                single == (self.kind_view() == DocKind::SingleLine),
                output == (self.kind_view() == DocKind::Output),
                n == edits@.len(),
                i <= n,
                can_apply_edits(edit_state(self), edits@.skip(i as int), single, output),
                target.0 == edits_applied(edit_state(self), edits@.skip(i as int), single, output).0,
                target.1 == edits@.take(i as int) + edits_applied(edit_state(self), edits@.skip(i as int), single, output).1,
            decreases n - i,
        {
            let ghost q = edits@;
            let ghost x = q[i as int];
            let ghost st = edit_state(self);
            let start = edits[i].start;
            let end = edits[i].end;
            proof {
                assert(q.skip(i as int)[0] == x);
            }
            self.delete(start, end, line_pool);
            let ghost st1 = edit_state(self);
            proof {
                assert(st1 == deleted(st, x.start, x.end, output));
            }
            let text = edits[i].new_text.as_str();
            proof {
                lemma_str_valid(text);
                lemma_as_str(&edits@[i as int].new_text, text);
            }
            let insert_end_at = self.insert(start, text, line_pool);
            let ghost r = insert_end(st1.0, x.start, x.new_text@, single);
            proof {
                assert(insert_end_at == r);
                assert(edit_state(self) == inserted(st1, x.start, x.new_text@, single, output));
            }
            proof {
                let rest = q.skip(i as int);
                assert forall|k: int| i < k < n implies can_shift(x.start, x.end, r, (#[trigger] q[k]).start) && can_shift(
                    x.start,
                    x.end,
                    r,
                    q[k].end,
                ) by {
                    assert(rest[k - i] == q[k]);
                }
            }
            let mut j: usize = i + 1;
            while j < n
                invariant
                    i < j <= n,
                    n == edits@.len(),
                    q.len() == n,
                    x == q[i as int],
                    start == x.start,
                    end == x.end,
                    insert_end_at == r,
                    forall|k: int| 0 <= k <= i ==> edits@[k] == q[k],
                    forall|k: int| i < k < j ==> edits@[k] == shifted_edit(q[k], x.start, x.end, r),
                    forall|k: int| j <= k < n ==> edits@[k] == q[k],
                    forall|k: int| i < k < n ==> can_shift(x.start, x.end, r, (#[trigger] q[k]).start) && can_shift(
                        x.start,
                        x.end,
                        r,
                        q[k].end,
                    ),
                decreases n - j,
            {
                proof {
                    assert(edits@[j as int] == q[j as int]);
                    assert(can_shift(x.start, x.end, r, q[j as int].start));
                }
                let item_start = edits[j].start;
                let item_end = edits[j].end;
                let moved_start = self.shift_position_by_insert(start, insert_end_at, self.shift_position_by_delete(start, end, item_start));
                let moved_end = self.shift_position_by_insert(start, insert_end_at, self.shift_position_by_delete(start, end, item_end));
                let kept_text = edits[j].new_text.clone();
                edits.set(j, TextEdit { start: moved_start, end: moved_end, new_text: kept_text });
                j = j + 1;
            }
            proof {
                let rest = q.skip(i as int);
                assert(rest[0] == x);
                assert(edits@.skip(i + 1) =~= rest.skip(1).map_values(|y: TextEdit| shifted_edit(y, x.start, x.end, r)));
                assert(edits@.take(i + 1) =~= q.take(i as int).push(x));
                assert(edits@.take(i as int) =~= q.take(i as int));
                assert forall|k: int| 1 <= k < rest.len() implies can_shift(x.start, x.end, r, (#[trigger] rest[k]).start)
                    && can_shift(x.start, x.end, r, rest[k].end) by {
                    assert(rest[k] == q[i + k]);
                }
                let tail = edits_applied(edit_state(self), edits@.skip(i + 1), single, output);
                assert(q.take(i as int) + (seq![x] + tail.1) =~= edits@.take(i + 1) + tail.1);
            }
            i = i + 1;
        }
        proof {
            assert(edits@.skip(n as int) =~= Seq::<TextEdit>::empty());
            assert(edits@.take(n as int) =~= edits@);
            assert(edits@ + Seq::<TextEdit>::empty() =~= edits@);
        }
    }

    /// The lines a step of a line script takes at line `y`.
    fn select_diff_line(&self, y: usize) -> (r: Selection)
        requires
            self.wf(),
            can_select_diff_line(self.lines_view(), y),
        ensures
            r == diff_line_selection(self.lines_view(), self.line_chars(), y),
    {
        proof {
            self.lemma_chars_of_view();
        }
        let mut selection = self.select_current_line_at_position(Position::new(0, y));
        if y == self.lines.len() - 1 {
            selection.start = self.move_position(selection.start, -1, 0);
        }
        selection
    }

    /// Changes line `y` by the byte script `diff` towards the bytes `b`, one byte at a time.
    fn apply_byte_diff(&mut self, y: usize, b: &[u8], diff: &Vec<DiffEdit>, line_pool: &mut LinePool)
        requires
            old(self).wf(),
            can_apply_bytes_diff(
                edit_state(old(self)),
                y,
                b@,
                diff@,
                0,
                0,
                old(self).kind_view() == DocKind::SingleLine,
                old(self).kind_view() == DocKind::Output,
            ),
        ensures
            final(self).wf(),
            final(self).kind_view() == old(self).kind_view(),
            edit_state(final(self)) == bytes_diff_applied(
                edit_state(old(self)),
                y,
                b@,
                diff@,
                0,
                0,
                old(self).kind_view() == DocKind::SingleLine,
                old(self).kind_view() == DocKind::Output,
            ),
    {
        let ghost single = self.kind_view() == DocKind::SingleLine;
        let ghost output = self.kind_view() == DocKind::Output;
        let ghost target = bytes_diff_applied(edit_state(self), y, b@, diff@, 0, 0, single, output);
        let mut a_index: usize = 0;
        let mut k: usize = 0;
        while k < diff.len()
            invariant
                self.wf(),
                self.kind_view() == old(self).kind_view(),
                single == (self.kind_view() == DocKind::SingleLine),
                output == (self.kind_view() == DocKind::Output),
                k <= diff@.len(),
                target == bytes_diff_applied(edit_state(self), y, b@, diff@, k as int, a_index as int, single, output),
                can_apply_bytes_diff(edit_state(self), y, b@, diff@, k as int, a_index as int, single, output),
            decreases diff@.len() - k,
        {
            match diff[k] {
                DiffEdit::Delete => {
                    self.delete(Position::new(a_index, y), Position::new(a_index + 1, y), line_pool);
                },
                DiffEdit::Insert { b_index } => {
                    let mut one: Vec<u8> = Vec::new();
                    one.push(b[b_index]);
                    let text = ascii_string(one);
                    let piece = text.as_str();
                    proof {
                        assert(one@ =~= seq![b@[b_index as int]]);
                        assert(piece@ == byte_text(b@[b_index as int])) by {
                            vstd::utf8::encode_utf8_decode_utf8(text@);
                        }
                        lemma_str_valid(piece);
                    }
                    self.insert(Position::new(a_index, y), piece, line_pool);
                    a_index = a_index + 1;
                },
                DiffEdit::Match => {
                    a_index = a_index + 1;
                },
                DiffEdit::Substite { b_index } => {
                    self.delete(Position::new(a_index, y), Position::new(a_index + 1, y), line_pool);
                    let mut one: Vec<u8> = Vec::new();
                    one.push(b[b_index]);
                    let text = ascii_string(one);
                    let piece = text.as_str();
                    proof {
                        assert(one@ =~= seq![b@[b_index as int]]);
                        assert(piece@ == byte_text(b@[b_index as int])) by {
                            vstd::utf8::encode_utf8_decode_utf8(text@);
                        }
                        lemma_str_valid(piece);
                    }
                    self.insert(Position::new(a_index, y), piece, line_pool);
                    a_index = a_index + 1;
                },
            }
            k = k + 1;
        }
    }

    /// Changes the document by the line script `diff` towards the lines of `target`: takes out
    /// lines, puts in the lines gathered from `target`, and changes lines byte by byte.
    fn apply_line_diff(&mut self, target: &Doc, diff: &Vec<DiffEdit>, line_pool: &mut LinePool)
        requires
            old(self).wf(),
            target.wf(),
            can_apply_line_diff(
                edit_state(old(self)),
                target.lines_view(),
                diff@,
                0,
                0,
                Seq::<u8>::empty(),
                old(self).kind_view() == DocKind::SingleLine,
                old(self).kind_view() == DocKind::Output,
            ),
        ensures
            final(self).wf(),
            final(self).kind_view() == old(self).kind_view(),
            edit_state(final(self)) == line_diff_applied(
                edit_state(old(self)),
                target.lines_view(),
                diff@,
                0,
                0,
                Seq::<u8>::empty(),
                old(self).kind_view() == DocKind::SingleLine,
                old(self).kind_view() == DocKind::Output,
            ),
    {
        let ghost single = self.kind_view() == DocKind::SingleLine;
        let ghost output = self.kind_view() == DocKind::Output;
        let ghost tl = target.lines_view();
        let ghost goal = line_diff_applied(edit_state(self), tl, diff@, 0, 0, Seq::<u8>::empty(), single, output);
        let mut buffer = String::new();
        let mut a_index: usize = 0;
        let mut k: usize = 0;
        proof {
            assert(string_bytes(&buffer) =~= Seq::<u8>::empty());
        }
        while k < diff.len()
            invariant
                self.wf(),
                target.wf(),
                tl == target.lines_view(),
                self.kind_view() == old(self).kind_view(),
                single == (self.kind_view() == DocKind::SingleLine),
                output == (self.kind_view() == DocKind::Output),
                k <= diff@.len(),
                goal == line_diff_applied(edit_state(self), tl, diff@, k as int, a_index as int, string_bytes(&buffer), single, output),
                can_apply_line_diff(edit_state(self), tl, diff@, k as int, a_index as int, string_bytes(&buffer), single, output),
            decreases diff@.len() - k,
        {
            let step = diff[k];
            proof {
                assert(step == diff@[k as int]);
                self.lemma_chars_of_view();
                target.lemma_chars_of_view();
            }
            match step {
                DiffEdit::Delete => {
                    let selection = self.select_diff_line(a_index);
                    self.delete(selection.start, selection.end, line_pool);
                },
                DiffEdit::Insert { b_index } => {
                    let position = Position::new(0, a_index);
                    let selection = target.select_diff_line(b_index);
                    target.collect_string(selection.start, selection.end, &mut buffer);
                    let text = buffer.as_str();
                    proof {
                        vstd::utf8::encode_utf8_decode_utf8(buffer@);
                        lemma_str_valid(text);
                    }
                    self.insert(position, text, line_pool);
                    a_index = a_index + 1;
                },
                DiffEdit::Match => {
                    a_index = a_index + 1;
                },
                DiffEdit::Substite { b_index } => {
                    let y = a_index;
                    let a = self.lines[a_index].as_str().as_bytes();
                    let b = target.lines[b_index].as_str().as_bytes();
                    proof {
                        assert(a@ == self.lines_view()[a_index as int]);
                        assert(b@ == tl[b_index as int]);
                    }
                    let edits = myers_diff(a, b);
                    self.apply_byte_diff(y, b, &edits, line_pool);
                    a_index = a_index + 1;
                },
            }
            k = k + 1;
        }
    }

    /// Makes the edits, one after another, each range moved by the edits made before it: works
    /// them out on a scratch copy of the lines, then changes the document line by line by the
    /// script from its lines to the copy's (so that what stays the same is not touched). The
    /// edits are left with their moved ranges.
    pub fn apply_edit_list(&mut self, edits: &mut Vec<TextEdit>, line_pool: &mut LinePool)
        requires
            old(self).wf(),
            can_apply_edits(
                scratch_state(old(self).lines_view()),
                old(edits)@,
                old(self).kind_view() == DocKind::SingleLine,
                old(self).kind_view() == DocKind::Output,
            ),
            ({
                let tl = edits_applied(
                    scratch_state(old(self).lines_view()),
                    old(edits)@,
                    old(self).kind_view() == DocKind::SingleLine,
                    old(self).kind_view() == DocKind::Output,
                ).0.0;
                &&& (old(self).lines_view().len() + 1) * (tl.len() + 1) <= usize::MAX
                &&& can_apply_line_diff(
                    edit_state(old(self)),
                    tl,
                    line_diff_spec(old(self).line_chars(), chars_of(tl)),
                    0,
                    0,
                    Seq::<u8>::empty(),
                    old(self).kind_view() == DocKind::SingleLine,
                    old(self).kind_view() == DocKind::Output,
                )
            }),
        ensures
            final(self).wf(),
            final(self).kind_view() == old(self).kind_view(),
            final(edits)@ == edits_applied(
                scratch_state(old(self).lines_view()),
                old(edits)@,
                old(self).kind_view() == DocKind::SingleLine,
                old(self).kind_view() == DocKind::Output,
            ).1,
            ({
                let tl = edits_applied(
                    scratch_state(old(self).lines_view()),
                    old(edits)@,
                    old(self).kind_view() == DocKind::SingleLine,
                    old(self).kind_view() == DocKind::Output,
                ).0.0;
                edit_state(final(self)) == line_diff_applied(
                    edit_state(old(self)),
                    tl,
                    line_diff_spec(old(self).line_chars(), chars_of(tl)),
                    0,
                    0,
                    Seq::<u8>::empty(),
                    old(self).kind_view() == DocKind::SingleLine,
                    old(self).kind_view() == DocKind::Output,
                )
            }),
    {
        let mut scratch = self.tmp_clone();
        proof {
            assert(edit_state(&scratch) == scratch_state(self.lines_view()));
        }
        scratch.apply_edits_in_place(edits, line_pool);
        proof {
            scratch.lemma_chars_of_view();
            self.lemma_chars_of_view();
        }
        let diff = line_diff(self.lines.as_slice(), scratch.lines.as_slice());
        self.apply_line_diff(&scratch, &diff, line_pool);
    }

    /// Counts one more user of the document.
    pub fn add_usage(&mut self)
        requires
            old(self).usages_view() < usize::MAX,
        ensures
            final(self).usages_view() == old(self).usages_view() + 1,
            final(self).wf() == old(self).wf(),
            final(self).lines_view() == old(self).lines_view(),
            final(self).line_chars() == old(self).line_chars(),
            final(self).kind_view() == old(self).kind_view(),
            final(self).line_ending_view() == old(self).line_ending_view(),
            final(self).highlights_view() == old(self).highlights_view(),
            final(self).tokens_view() == old(self).tokens_view(),
            final(self).tokens_ready() == old(self).tokens_ready(),
            undirtied(old(self), final(self)),
            same_cursor_history(old(self), final(self)),
            final(self).cursors_view() == old(self).cursors_view(),
    {
        self.usages = self.usages + 1;
    }

    /// Counts one user of the document fewer.
    pub fn remove_usage(&mut self)
        requires
            old(self).usages_view() > 0,
        ensures
            final(self).usages_view() == old(self).usages_view() - 1,
            final(self).wf() == old(self).wf(),
            final(self).lines_view() == old(self).lines_view(),
            final(self).line_chars() == old(self).line_chars(),
            final(self).kind_view() == old(self).kind_view(),
            final(self).line_ending_view() == old(self).line_ending_view(),
            final(self).highlights_view() == old(self).highlights_view(),
            final(self).tokens_view() == old(self).tokens_view(),
            final(self).tokens_ready() == old(self).tokens_ready(),
            undirtied(old(self), final(self)),
            same_cursor_history(old(self), final(self)),
            final(self).cursors_view() == old(self).cursors_view(),
    {
        self.usages = self.usages - 1;
    }

    /// How many users the document has.
    pub fn usages(&self) -> (r: usize)
        ensures
            r == self.usages_view(),
    {
        self.usages
    }

    pub fn kind(&self) -> (r: DocKind)
        ensures
            r == self.kind_view(),
    {
        self.kind
    }

    pub fn lines(&self) -> (r: &[String])
        ensures
            line_bytes(r@) == self.lines_view(),
    {
        self.lines.as_slice()
    }

    pub fn get_line(&self, y: usize) -> (r: Option<&str>)
        ensures
            y < self.lines_view().len() ==> (r matches Some(l) && bytes(l) == self.lines_view()[y as int]
                && l@ == self.line_chars()[y as int]),
            y >= self.lines_view().len() ==> r is None,
    {
        if y >= self.lines.len() {
            None
        } else {
            let l = self.lines[y].as_str();
            proof {
                lemma_as_str(&self.lines@[y as int], l);
            }
            Some(l)
        }
    }

    /// The length in bytes of line `y`, or zero past the last line.
    pub fn get_line_len(&self, y: usize) -> (r: usize)
        ensures
            r == if y < self.lines_view().len() { self.lines_view()[y as int].len() } else { 0 },
    {
        match self.get_line(y) {
            Some(line) => str_len(line),
            None => 0,
        }
    }

    /// The end of line `y`.
    pub fn get_line_end(&self, y: usize) -> (r: Position)
        ensures
            r == (Position { x: if y < self.lines_view().len() { self.lines_view()[y as int].len() as usize } else { 0 }, y }),
            y < self.lines_view().len() ==> r.x == self.lines_view()[y as int].len(),
    {
        Position::new(self.get_line_len(y), y)
    }

    /// The end of the last line.
    pub fn end(&self) -> (r: Position)
        requires
            self.wf(),
        ensures
            r == (Position {
                x: self.lines_view().last().len() as usize,
                y: (self.lines_view().len() - 1) as usize,
            }),
            r.x == self.lines_view().last().len(),
    {
        self.get_line_end(self.lines.len() - 1)
    }

    /// The position within the document nearest to `position`.
    pub fn clamp_position(&self, position: Position) -> (r: Position)
        requires
            self.wf(),
        ensures
            r == clamp(self.lines_view(), position),
    {
        let max_y = self.lines.len() - 1;
        let y = if position.y < max_y { position.y } else { max_y };
        let max_x = self.get_line_len(y);
        let x = if position.x < max_x { position.x } else { max_x };
        Position::new(x, y)
    }

    /// The length in bytes of the white space that line `y` starts with (zero past the last
    /// line).
    pub fn get_line_start(&self, y: usize) -> (r: usize)
        ensures
            r == if y < self.line_chars().len() { white_prefix_end(self.line_chars()[y as int], 0) } else { 0 },
            y < self.line_chars().len() ==> r <= self.lines_view()[y as int].len() && boundary(
                self.lines_view()[y as int],
                r as int,
            ),
    {
        if y >= self.lines.len() {
            return 0;
        }
        let line = self.lines[y].as_str();
        proof {
            lemma_str_valid(line);
            assert(line@ == self.line_chars()[y as int]);
            lemma_as_str(&self.lines@[y as int], line);
        }
        let len = str_len(line);
        let mut cursor = GraphemeCursor::new(0, len);
        let mut start: usize = 0;
        while start < len
            invariant
                len == bytes(line).len(),
                cursor.spec_len() == len,
                cursor.spec_index() == start,
                start <= len,
                boundary(bytes(line), start as int),
                white_prefix_end(line@, 0) == white_prefix_end(line@, start),
            ensures
                start <= len,
                boundary(bytes(line), start as int),
                white_prefix_end(line@, 0) == start,
            decreases len - start,
        {
            let grapheme = at(start, line);
            if !is_whitespace(grapheme) {
                break;
            }
            cursor.next_boundary(line);
            start = cursor.index();
        }
        start
    }

    /// Whether line `y` holds only white space.
    pub fn is_line_whitespace(&self, y: usize) -> (r: bool)
        ensures
            r == (if y < self.line_chars().len() { white_prefix_end(self.line_chars()[y as int], 0) as int } else { 0 }
                == if y < self.lines_view().len() { self.lines_view()[y as int].len() } else { 0 }),
    {
        self.get_line_start(y) == self.get_line_len(y)
    }

    /// Whether line `y` starts, after its white space, with `comment` and goes on after it.
    pub fn is_line_commented(&self, comment: &str, y: usize) -> (r: bool)
        requires
            y < self.lines_view().len() ==> self.lines_view()[y as int].len() + bytes(comment).len() <= usize::MAX,
        ensures
            r == line_commented(self.lines_view(), self.line_chars(), comment@, y),
    {
        if y >= self.lines.len() {
            return false;
        }
        let line = self.lines[y].as_str();
        proof {
            lemma_str_valid(line);
            lemma_str_valid(comment);
            assert(line@ == self.line_chars()[y as int]);
            lemma_as_str(&self.lines@[y as int], line);
        }
        let start = self.get_line_start(y);
        let comment_len = str_len(comment);
        let line_len = str_len(line);
        if start + comment_len >= line_len {
            return false;
        }
        let mut cursor = GraphemeCursor::new(start, comment_len);
        let mut comment_cursor = GraphemeCursor::new(0, comment_len);
        while comment_cursor.index() < comment_len
            invariant_except_break
                cursor.spec_len() == comment_len,
                start <= cursor.spec_index(),
                cursor.spec_index() - start == comment_cursor.spec_index(),
                boundary(bytes(line), cursor.spec_index() as int),
                commented_from(line@, comment@, start, 0) == commented_from(
                    line@,
                    comment@,
                    cursor.spec_index(),
                    comment_cursor.spec_index(),
                ),
            invariant
                line@ == self.line_chars()[y as int],
                line_len == bytes(line).len(),
                comment_len == bytes(comment).len(),
                comment_cursor.spec_len() == comment_len,
                start + comment_len < line_len,
                start == white_prefix_end(line@, 0),
                comment_cursor.spec_index() <= comment_len,
                boundary(bytes(comment), comment_cursor.spec_index() as int),
            ensures
                commented_from(line@, comment@, start, 0),
            decreases comment_len - comment_cursor.spec_index(),
        {
            let comment_start = comment_cursor.index();
            let comment_grapheme = at(comment_start, comment);
            let line_start = cursor.index();
            let end = match cursor.next_boundary(line) {
                Some(end) => end,
                None => {
                    break;
                },
            };
            let line_grapheme = sub_str(line, line_start, end);
            if !super::strs::str_eq(comment_grapheme, line_grapheme) {
                proof {
                    assert(can_step(comment@, comment_start));
                }
                return false;
            }
            comment_cursor.next_boundary(comment);
        }
        true
    }

    /// Appends to `result` the text from `start` to `end` (each kept within the document),
    /// with a line feed between lines.
    pub fn collect_string(&self, start: Position, end: Position, result: &mut String)
        requires
            self.wf(),
            pos_le(clamp(self.lines_view(), start), clamp(self.lines_view(), end)),
            on_char(self.lines_view(), clamp(self.lines_view(), start)),
            on_char(self.lines_view(), clamp(self.lines_view(), end)),
        ensures
            string_bytes(final(result)) == string_bytes(old(result)) + text_between(
                self.lines_view(),
                clamp(self.lines_view(), start),
                clamp(self.lines_view(), end),
            ),
    {
        let ghost ls = self.lines_view();
        let start = self.clamp_position(start);
        let end = self.clamp_position(end);
        let first = self.lines[start.y].as_str();
        proof {
            lemma_as_str(&self.lines@[start.y as int], first);
            lemma_str_valid(first);
        }
        if start.y == end.y {
            push_str(result, sub_str(first, start.x, end.x));
        } else {
            let ghost r0 = string_bytes(result);
            push_str(result, sub_str(first, start.x, str_len(first)));
            push_newline(result);
            let mut y = start.y + 1;
            proof {
                assert(joined_lines(ls, y as int, y as int) =~= Seq::<u8>::empty());
            }
            while y < end.y
                invariant
                    ls == self.lines_view(),
                    ls.len() == self.lines@.len(),
                    start.y < y <= end.y,
                    end.y < ls.len(),
                    string_bytes(result) == r0 + ls[start.y as int].subrange(start.x as int, ls[start.y as int].len() as int)
                        + seq![0x0Au8] + joined_lines(ls, start.y + 1, y as int),
                decreases end.y - y,
            {
                let line = self.lines[y].as_str();
                proof {
                    lemma_as_str(&self.lines@[y as int], line);
                    lemma_joined_push(ls, start.y + 1, y as int);
                }
                push_str(result, line);
                push_newline(result);
                y = y + 1;
            }
            let last = self.lines[end.y].as_str();
            proof {
                lemma_as_str(&self.lines@[end.y as int], last);
            }
            push_str(result, sub_str(last, 0, end.x));
        }
    }

    /// Where one level of indentation that ends at `end` starts, for an indent
    /// `indent_graphemes` graphemes wide.
    pub fn get_indent_start(&self, end: Position, indent_graphemes: usize) -> (r: Position)
        requires
            self.wf(),
            indent_graphemes > 0,
            on_char(self.lines_view(), clamp(self.lines_view(), end)),
            grapheme_at(
                self.lines_view(),
                self.line_chars(),
                moved(self.lines_view(), self.line_chars(), end, -1, 0),
            ) == seq![0x20u8] ==> end.x > 0,
        ensures
            r == indent_start(self.lines_view(), self.line_chars(), end, indent_graphemes),
            r == end || (within(self.lines_view(), r) && on_char(self.lines_view(), r) && pos_le(
                r,
                clamp(self.lines_view(), end),
            )),
    {
        let ghost ls = self.lines_view();
        let ghost lc = self.line_chars();
        let mut start = self.move_position(end, -1, 0);
        let start_grapheme = self.get_grapheme(start);
        if is_single_byte(start_grapheme, 0x20) {
            let indent_width = (end.x - 1) % indent_graphemes + 1;
            let ghost first = start;
            let mut k: usize = 1;
            while k < indent_width
                invariant
                    self.wf(),
                    ls == self.lines_view(),
                    lc == self.line_chars(),
                    1 <= k <= indent_width,
                    within(ls, start),
                    on_char(ls, start),
                    pos_le(start, clamp(ls, end)),
                    spaces_back(ls, lc, first, (indent_width - 1) as nat) == spaces_back(
                        ls,
                        lc,
                        start,
                        (indent_width - k) as nat,
                    ),
                ensures
                    within(ls, start),
                    on_char(ls, start),
                    pos_le(start, clamp(ls, end)),
                    spaces_back(ls, lc, first, (indent_width - 1) as nat) == start,
                decreases indent_width - k,
            {
                let next_start = self.move_position(start, -1, 0);
                if !is_single_byte(self.get_grapheme(next_start), 0x20) {
                    break;
                }
                start = next_start;
                k = k + 1;
            }
            start
        } else if is_single_byte(start_grapheme, 0x09) {
            start
        } else {
            end
        }
    }

    /// Puts `grapheme` in `grapheme_count` times from `start` on, one after another.
    fn indent(&mut self, start: Position, grapheme: &str, grapheme_count: usize, line_pool: &mut LinePool)
        requires
            old(self).wf(),
            can_indent(
                edit_state(old(self)),
                start,
                grapheme@,
                grapheme_count as nat,
                old(self).kind_view() == DocKind::SingleLine,
                old(self).kind_view() == DocKind::Output,
            ),
        ensures
            final(self).wf(),
            same_frame(old(self), final(self)),
            final(self).cursors_view().len() == old(self).cursors_view().len(),
            edit_state(final(self)) == indented(
                edit_state(old(self)),
                start,
                grapheme@,
                grapheme_count as nat,
                old(self).kind_view() == DocKind::SingleLine,
                old(self).kind_view() == DocKind::Output,
            ),
    {
        let ghost single = self.kind_view() == DocKind::SingleLine;
        let ghost output = self.kind_view() == DocKind::Output;
        let ghost target = indented(edit_state(self), start, grapheme@, grapheme_count as nat, single, output);
        proof {
            lemma_str_valid(grapheme);
        }
        let mut start = start;
        let mut i: usize = 0;
        while i < grapheme_count
            invariant
                self.wf(),
                same_frame(old(self), self),
                self.cursors_view().len() == old(self).cursors_view().len(),
                single == (self.kind_view() == DocKind::SingleLine),
                output == (self.kind_view() == DocKind::Output),
                i <= grapheme_count,
                blen(grapheme@) == bytes(grapheme).len(),
                target == indented(edit_state(self), start, grapheme@, (grapheme_count - i) as nat, single, output),
                can_indent(edit_state(self), start, grapheme@, (grapheme_count - i) as nat, single, output),
            decreases grapheme_count - i,
        {
            let ghost before = edit_state(self);
            let ghost m = (grapheme_count - i) as nat;
            let ghost ins = inserted_at(before.0, before.1, start, grapheme@, single, output);
            let ghost st2 = (
                ins.0,
                ins.1,
                if blen(grapheme@) > 0 { marked_from(before.2, start.y) } else { before.2 },
                before.3 || blen(grapheme@) > 0,
            );
            let ghost old_start = start;
            self.insert(start, grapheme, line_pool);
            proof {
                self.lemma_chars_of_view();
                assert(edit_state(self) == st2);
            }
            start = self.move_position(start, 1, 0);
            proof {
                assert(start == moved(st2.0, chars_of(st2.0), old_start, 1, 0));
                assert(indented(before, old_start, grapheme@, m, single, output) == indented(
                    st2,
                    start,
                    grapheme@,
                    (m - 1) as nat,
                    single,
                    output,
                ));
            }
            i = i + 1;
        }
    }

    /// Takes out one level of indentation that ends at `end`, for an indent
    /// `indent_graphemes` graphemes wide.
    fn unindent(&mut self, end: Position, indent_graphemes: usize, line_pool: &mut LinePool)
        requires
            old(self).wf(),
            indent_graphemes > 0,
            on_char(old(self).lines_view(), clamp(old(self).lines_view(), end)),
            grapheme_at(
                old(self).lines_view(),
                old(self).line_chars(),
                moved(old(self).lines_view(), old(self).line_chars(), end, -1, 0),
            ) == seq![0x20u8] ==> end.x > 0,
            old(self).kind_view() != DocKind::Output ==> cursors_fit(
                old(self).cursors_view(),
                indent_start(old(self).lines_view(), old(self).line_chars(), end, indent_graphemes).x as int,
            ),
        ensures
            final(self).wf(),
            same_frame(old(self), final(self)),
            final(self).cursors_view().len() == old(self).cursors_view().len(),
            ({
                let ls = old(self).lines_view();
                let a = clamp(ls, indent_start(ls, old(self).line_chars(), end, indent_graphemes));
                let b = clamp(ls, end);
                edit_state(final(self)) == (
                    delete_lines(ls, a, b),
                    if old(self).kind_view() == DocKind::Output {
                        old(self).cursors_view()
                    } else {
                        cursors_shifted_by_delete(old(self).cursors_view(), a, b)
                    },
                    if a != b { marked_from(old(self).unhighlighted_view(), a.y) } else { old(self).unhighlighted_view() },
                    old(self).needs_tokenization_view() || a != b,
                )
            }),
    {
        let start = self.get_indent_start(end, indent_graphemes);
        self.delete(start, end, line_pool);
    }

    /// Takes out one level of indentation in front of the leading white space of line `y`.
    fn unindent_line(&mut self, y: usize, indent_graphemes: usize, line_pool: &mut LinePool)
        requires
            old(self).wf(),
            can_unindent_line(edit_state(old(self)), y, indent_graphemes, old(self).kind_view() == DocKind::Output),
        ensures
            final(self).wf(),
            same_frame(old(self), final(self)),
            final(self).cursors_view().len() == old(self).cursors_view().len(),
            edit_state(final(self)) == unindented_line(
                edit_state(old(self)),
                y,
                indent_graphemes,
                old(self).kind_view() == DocKind::Output,
            ),
    {
        proof {
            self.lemma_chars_of_view();
        }
        let end = Position::new(self.get_line_start(y), y);
        self.unindent(end, indent_graphemes, line_pool);
    }

    /// Indents line `y` at its start.
    fn indent_line(&mut self, y: usize, grapheme: &str, grapheme_count: usize, line_pool: &mut LinePool)
        requires
            old(self).wf(),
            can_indent(
                edit_state(old(self)),
                Position { x: 0, y },
                grapheme@,
                grapheme_count as nat,
                old(self).kind_view() == DocKind::SingleLine,
                old(self).kind_view() == DocKind::Output,
            ),
        ensures
            final(self).wf(),
            same_frame(old(self), final(self)),
            final(self).cursors_view().len() == old(self).cursors_view().len(),
            edit_state(final(self)) == indented(
                edit_state(old(self)),
                Position { x: 0, y },
                grapheme@,
                grapheme_count as nat,
                old(self).kind_view() == DocKind::SingleLine,
                old(self).kind_view() == DocKind::Output,
            ),
    {
        self.indent(Position::new(0, y), grapheme, grapheme_count, line_pool);
    }

    /// Indents (or unindents) the lines of the cursor that `index` names: those its selection
    /// touches, less a last line of which nothing is selected, passing over empty lines, or
    /// else its own line.
    pub fn indent_lines_at_cursor(
        &mut self,
        index: CursorIndex,
        do_unindent: bool,
        grapheme: &str,
        grapheme_count: usize,
        line_pool: &mut LinePool,
    )
        requires
            old(self).wf(),
            names_cursor(old(self).cursors_view(), index),
            can_indent_lines_at_cursor(
                edit_state(old(self)),
                cursor_at(old(self).cursors_view(), index),
                do_unindent,
                grapheme@,
                grapheme_count,
                old(self).kind_view() == DocKind::SingleLine,
                old(self).kind_view() == DocKind::Output,
            ),
        ensures
            final(self).wf(),
            same_frame(old(self), final(self)),
            final(self).cursors_view().len() == old(self).cursors_view().len(),
            edit_state(final(self)) == lines_indented_at_cursor(
                edit_state(old(self)),
                cursor_at(old(self).cursors_view(), index),
                do_unindent,
                grapheme@,
                grapheme_count,
                old(self).kind_view() == DocKind::SingleLine,
                old(self).kind_view() == DocKind::Output,
            ),
    {
        let ghost single = self.kind_view() == DocKind::SingleLine;
        let ghost output = self.kind_view() == DocKind::Output;
        let cursor = self.get_cursor(index);
        let selection = cursor.get_selection();
        let has_selection = selection.is_some();
        let selection = match selection {
            Some(selection) => selection,
            None => Selection { start: cursor.position, end: cursor.position },
        }.trim();
        let ghost target = lines_indented(
            edit_state(self),
            selection.start.y as int,
            selection.end.y as int,
            has_selection,
            do_unindent,
            grapheme@,
            grapheme_count,
            single,
            output,
        );
        let last = selection.end.y;
        let mut y = selection.start.y;
        if y > last {
            return;
        }
        loop
            invariant_except_break
                target == lines_indented(edit_state(self), y as int, last as int, has_selection, do_unindent, grapheme@, grapheme_count, single, output),
                can_indent_lines(edit_state(self), y as int, last as int, has_selection, do_unindent, grapheme@, grapheme_count, single, output),
                y <= last,
            invariant
                self.wf(),
                same_frame(old(self), self),
                self.cursors_view().len() == old(self).cursors_view().len(),
                single == (self.kind_view() == DocKind::SingleLine),
                output == (self.kind_view() == DocKind::Output),
            ensures
                edit_state(self) == target,
            decreases last - y,
        {
            let ghost before = edit_state(self);
            if !(has_selection && self.get_line_len(y) == 0) {
                if do_unindent {
                    self.unindent_line(y, grapheme_count, line_pool);
                } else {
                    self.indent_line(y, grapheme, grapheme_count, line_pool);
                }
            }
            if y == last {
                proof {
                    assert(lines_indented(edit_state(self), y + 1, last as int, has_selection, do_unindent, grapheme@, grapheme_count, single, output) == edit_state(self));
                }
                break;
            }
            y = y + 1;
        }
    }

    /// Indents (or unindents) the lines of each cursor, from the first to the main one.
    pub fn indent_lines_at_cursors(&mut self, do_unindent: bool, grapheme: &str, grapheme_count: usize, line_pool: &mut LinePool)
        requires
            old(self).wf(),
            can_indent_lines_at_cursors(
                edit_state(old(self)),
                do_unindent,
                grapheme@,
                grapheme_count,
                old(self).kind_view() == DocKind::SingleLine,
                old(self).kind_view() == DocKind::Output,
                old(self).cursors_view().len() as int,
            ),
        ensures
            final(self).wf(),
            same_frame(old(self), final(self)),
            edit_state(final(self)) == lines_indented_at_cursors(
                edit_state(old(self)),
                do_unindent,
                grapheme@,
                grapheme_count,
                old(self).kind_view() == DocKind::SingleLine,
                old(self).kind_view() == DocKind::Output,
                old(self).cursors_view().len() as int,
            ),
    {
        let ghost st0 = edit_state(self);
        let ghost single = self.kind_view() == DocKind::SingleLine;
        let ghost output = self.kind_view() == DocKind::Output;
        let ghost n = self.cursors_view().len() as int;
        let mut indices = self.cursor_indices();
        loop
            invariant
                self.wf(),
                same_frame(old(self), self),
                single == (self.kind_view() == DocKind::SingleLine),
                output == (self.kind_view() == DocKind::Output),
                n == old(self).cursors_view().len(),
                st0 == edit_state(old(self)),
                can_indent_lines_at_cursors(st0, do_unindent, grapheme@, grapheme_count, single, output, n),
                indices.back() == n,
                indices.front() <= n,
                self.cursors_view().len() == n,
                edit_state(self) == lines_indented_at_cursors(st0, do_unindent, grapheme@, grapheme_count, single, output, indices.front() as int),
            ensures
                edit_state(self) == lines_indented_at_cursors(st0, do_unindent, grapheme@, grapheme_count, single, output, n),
            decreases indices.back() - indices.front(),
        {
            let ghost k = indices.front() as int;
            match indices.next() {
                None => {
                    break;
                },
                Some(index) => {
                    proof {
                        lemma_can_indent_lines_prefix(st0, do_unindent, grapheme@, grapheme_count, single, output, k, n);
                    }
                    self.indent_lines_at_cursor(index, do_unindent, grapheme, grapheme_count, line_pool);
                },
            }
        }
    }

    /// Indents at the cursor that `index` names: puts `grapheme` in `grapheme_count` times
    /// where it stands.
    pub fn indent_at_cursor(&mut self, index: CursorIndex, grapheme: &str, grapheme_count: usize, line_pool: &mut LinePool)
        requires
            old(self).wf(),
            names_cursor(old(self).cursors_view(), index),
            can_indent(
                edit_state(old(self)),
                old(self).cursors_view()[cursor_at(old(self).cursors_view(), index)].position,
                grapheme@,
                grapheme_count as nat,
                old(self).kind_view() == DocKind::SingleLine,
                old(self).kind_view() == DocKind::Output,
            ),
        ensures
            final(self).wf(),
            same_frame(old(self), final(self)),
            final(self).cursors_view().len() == old(self).cursors_view().len(),
            edit_state(final(self)) == indented(
                edit_state(old(self)),
                old(self).cursors_view()[cursor_at(old(self).cursors_view(), index)].position,
                grapheme@,
                grapheme_count as nat,
                old(self).kind_view() == DocKind::SingleLine,
                old(self).kind_view() == DocKind::Output,
            ),
    {
        let start = self.get_cursor(index).position;
        self.indent(start, grapheme, grapheme_count, line_pool);
    }

    /// Indents at each cursor, from the first to the main one.
    pub fn indent_at_cursors(&mut self, grapheme: &str, grapheme_count: usize, line_pool: &mut LinePool)
        requires
            old(self).wf(),
            can_indent_at_cursors(
                edit_state(old(self)),
                grapheme@,
                grapheme_count as nat,
                old(self).kind_view() == DocKind::SingleLine,
                old(self).kind_view() == DocKind::Output,
                old(self).cursors_view().len() as int,
            ),
        ensures
            final(self).wf(),
            same_frame(old(self), final(self)),
            edit_state(final(self)) == indented_at_cursors(
                edit_state(old(self)),
                grapheme@,
                grapheme_count as nat,
                old(self).kind_view() == DocKind::SingleLine,
                old(self).kind_view() == DocKind::Output,
                old(self).cursors_view().len() as int,
            ),
    {
        let ghost st0 = edit_state(self);
        let ghost single = self.kind_view() == DocKind::SingleLine;
        let ghost output = self.kind_view() == DocKind::Output;
        let ghost n = self.cursors_view().len() as int;
        let mut indices = self.cursor_indices();
        loop
            invariant
                self.wf(),
                same_frame(old(self), self),
                single == (self.kind_view() == DocKind::SingleLine),
                output == (self.kind_view() == DocKind::Output),
                n == old(self).cursors_view().len(),
                st0 == edit_state(old(self)),
                can_indent_at_cursors(st0, grapheme@, grapheme_count as nat, single, output, n),
                indices.back() == n,
                indices.front() <= n,
                self.cursors_view().len() == n,
                edit_state(self) == indented_at_cursors(st0, grapheme@, grapheme_count as nat, single, output, indices.front() as int),
            ensures
                edit_state(self) == indented_at_cursors(st0, grapheme@, grapheme_count as nat, single, output, n),
            decreases indices.back() - indices.front(),
        {
            let ghost k = indices.front() as int;
            match indices.next() {
                None => {
                    break;
                },
                Some(index) => {
                    proof {
                        lemma_can_indent_prefix(st0, grapheme@, grapheme_count as nat, single, output, k, n);
                    }
                    self.indent_at_cursor(index, grapheme, grapheme_count, line_pool);
                },
            }
        }
    }

    /// The grapheme at `position` (kept within the document), or a line feed at a line's end.
    pub fn get_grapheme(&self, position: Position) -> (r: &str)
        requires
            self.wf(),
            on_char(self.lines_view(), clamp(self.lines_view(), position)),
        ensures
            bytes(r) == grapheme_at(self.lines_view(), self.line_chars(), clamp(self.lines_view(), position)),
    {
        let position = self.clamp_position(position);
        let line = self.lines[position.y].as_str();
        proof {
            lemma_as_str(&self.lines@[position.y as int], line);
        }
        if position.x == str_len(line) {
            let newline = "\n";
            proof {
                reveal_strlit("\n");
                lemma_newline_bytes();
                assert(newline@ =~= seq!['\n']);
                assert(bytes(newline) == encode_utf8(newline@));
            }
            newline
        } else {
            at(position.x, line)
        }
    }

    /// Moves `position` to the next grapheme boundary of its line and says whether there
    /// was one; past the last line, or at a line's end, it stays.
    pub fn move_position_to_next_grapheme(&self, position: &mut Position) -> (r: bool)
        requires
            old(position).y < self.lines_view().len() ==> on_char(self.lines_view(), *old(position)),
        ensures
            r == (old(position).y < self.lines_view().len() && cursor_next(
                self.line_chars()[old(position).y as int],
                old(position).x,
                self.lines_view()[old(position).y as int].len() as usize,
            ) is Some),
            r ==> *final(position) == (Position {
                x: cursor_next(
                    self.line_chars()[old(position).y as int],
                    old(position).x,
                    self.lines_view()[old(position).y as int].len() as usize,
                )->0,
                y: old(position).y,
            }),
            !r ==> *final(position) == *old(position),
            r ==> pos_lt(*old(position), *final(position)) && on_char(self.lines_view(), *final(position)),
    {
        let line = match self.get_line(position.y) {
            Some(line) => line,
            None => {
                return false;
            },
        };
        proof {
            lemma_str_valid(line);
        }
        let mut grapheme_cursor = GraphemeCursor::new(position.x, str_len(line));
        match grapheme_cursor.next_boundary(line) {
            Some(new_x) => {
                position.x = new_x;
                true
            },
            None => false,
        }
    }

    /// Moves `position` to the previous grapheme boundary of its line and says whether there
    /// was one; past the last line, or at a line's start, it stays.
    pub fn move_position_to_previous_grapheme(&self, position: &mut Position) -> (r: bool)
        requires
            old(position).y < self.lines_view().len() ==> on_char(self.lines_view(), *old(position)),
        ensures
            r == (old(position).y < self.lines_view().len() && unicode_prev_boundary(
                self.line_chars()[old(position).y as int],
                old(position).x,
                self.lines_view()[old(position).y as int].len() as usize,
            ) is Some),
            r ==> *final(position) == (Position {
                x: unicode_prev_boundary(
                    self.line_chars()[old(position).y as int],
                    old(position).x,
                    self.lines_view()[old(position).y as int].len() as usize,
                )->0,
                y: old(position).y,
            }),
            !r ==> *final(position) == *old(position),
            r ==> pos_lt(*final(position), *old(position)) && on_char(self.lines_view(), *final(position)),
            old(position).y < self.lines_view().len() && old(position).x > 0 ==> r,
    {
        let line = match self.get_line(position.y) {
            Some(line) => line,
            None => {
                return false;
            },
        };
        proof {
            lemma_str_valid(line);
        }
        let mut grapheme_cursor = GraphemeCursor::new(position.x, str_len(line));
        match grapheme_cursor.previous_boundary(line) {
            Some(new_x) => {
                position.x = new_x;
                true
            },
            None => false,
        }
    }

    /// Puts `text` in at `start` (kept within the document) and returns where it ends. Lines
    /// that a line feed splits off take their room from `line_pool`.
    pub fn insert(&mut self, start: Position, text: &str, line_pool: &mut LinePool) -> (r: Position)
        requires
            old(self).wf(),
            on_char(old(self).lines_view(), clamp(old(self).lines_view(), start)),
            old(self).kind_view() != DocKind::Output ==> cursors_fit(old(self).cursors_view(), bytes(text).len() as int),
        ensures
            final(self).wf(),
            final(self).kind_view() == old(self).kind_view(),
            final(self).line_ending_view() == old(self).line_ending_view(),
            bytes(text).len() == 0 ==> r == start && final(self).lines_view() == old(self).lines_view(),
            bytes(text).len() > 0 ==> (final(self).lines_view(), r) == insert_from(
                old(self).lines_view(),
                clamp(old(self).lines_view(), start),
                text@,
                0,
                old(self).kind_view() == DocKind::SingleLine,
            ),
            bytes(text).len() > 0 ==> on_char(final(self).lines_view(), r),
            same_annotations(old(self), final(self)),
            same_cursor_history(old(self), final(self)),
            bytes(text).len() == 0 || old(self).kind_view() == DocKind::Output ==> final(self).cursors_view()
                == old(self).cursors_view(),
            bytes(text).len() > 0 && old(self).kind_view() != DocKind::Output ==> final(self).cursors_view()
                == cursors_shifted_by_insert(old(self).cursors_view(), clamp(old(self).lines_view(), start), r),
            bytes(text).len() > 0 ==> insert_reach(clamp(old(self).lines_view(), start), r, bytes(text).len() as int),
            bytes(text).len() == 0 ==> undirtied(old(self), final(self)),
            bytes(text).len() > 0 ==> dirtied(old(self), final(self), start.y),
    {
        proof { lemma_str_valid(text); }
        let text_len = str_len(text);
        if text_len == 0 {
            return start;
        }
        self.mark_line_dirty(start.y);
        let ghost marked_y = self.unhighlighted_line_y;
        let ghost single = self.kind == DocKind::SingleLine;
        let ghost target = insert_from(self.lines_view(), clamp(self.lines_view(), start), text@, 0, single);
        let mut position = self.clamp_position(start);
        let clamped = position;
        let mut cursor = GraphemeCursor::new(0, text_len);
        while cursor.index() < text_len
            invariant
                text_len == bytes(text).len(),
                cursor.spec_len() == text_len,
                cursor.spec_index() <= text_len,
                boundary(bytes(text), cursor.spec_index() as int),
                self.lines@.len() > 0,
                single == (self.kind == DocKind::SingleLine),
                self.kind == old(self).kind,
                self.usages == old(self).usages,
                self.line_ending == old(self).line_ending,
                self.syntax_highlighter == old(self).syntax_highlighter,
                self.tokenizer == old(self).tokenizer,
                self.cursors == old(self).cursors,
                self.cursor_position_undo_history == old(self).cursor_position_undo_history,
                self.cursor_position_redo_history == old(self).cursor_position_redo_history,
                self.unhighlighted_line_y == marked_y,
                self.needs_tokenization,
                on_char(self.lines_view(), position),
                target == insert_from(self.lines_view(), position, text@, cursor.spec_index(), single),
                clamped == clamp(old(self).lines_view(), start),
                insert_reach(clamped, position, cursor.spec_index() as int),
                old(self).kind_view() != DocKind::Output ==> cursors_fit(old(self).cursors_view(), text_len as int),
            decreases text_len - cursor.spec_index(),
        {
            let i = cursor.index();
            let grapheme = at(i, text);
            cursor.next_boundary(text);
            let ghost ls = self.lines_view();
            let ghost old_lines = self.lines@;
            if super::grapheme::is_single_byte(grapheme, 0x0D) {
                continue;
            }
            let is_newline = super::grapheme::is_single_byte(grapheme, 0x0A) || is_crlf(grapheme);
            if is_newline {
                if self.kind == DocKind::SingleLine {
                    continue;
                }
                let y = position.y;
                let x = position.x;
                proof {
                    assert(y < self.lines@.len());
                }
                let mut new_line = line_pool.pop();
                let old_line = self.lines[y].as_str();
                proof {
                    lemma_as_str(&self.lines@[y as int], old_line);
                    lemma_str_valid(old_line);
                }
                push_str(&mut new_line, sub_str(old_line, x, str_len(old_line)));
                truncate_string(&mut self.lines[y], x);
                let line_count = self.lines.len();
                assert(y < line_count);
                self.lines.insert(y + 1, new_line);
                position = Position::new(0, y + 1);
                proof {
                    let l = ls[y as int];
                    assert(self.lines_view() =~= ls.update(y as int, l.subrange(0, x as int)).insert(
                        y + 1,
                        l.subrange(x as int, l.len() as int),
                    ));
                    let nl = self.lines_view()[y + 1];
                    assert(nl == encode_utf8(self.lines@[y + 1]@));
                    is_char_boundary_start_end_of_seq(nl);
                }
                continue;
            }
            let y = position.y;
            let x = position.x;
            insert_str_at(&mut self.lines[y], x, grapheme);
            let new_len = str_len(self.lines[y].as_str());
            proof {
                let l = ls[y as int];
                assert(self.lines_view() =~= ls.update(y as int, l.subrange(0, x as int) + bytes(grapheme) + l.subrange(x as int, l.len() as int)));
                assert(l == encode_utf8(old_lines[y as int]@));
                lemma_str_valid(grapheme);
                valid_utf8_split(l, x as int);
                lemma_boundary_concat(l.subrange(0, x as int), bytes(grapheme));
                lemma_boundary_concat(l.subrange(0, x as int) + bytes(grapheme), l.subrange(x as int, l.len() as int));
            }
            position = Position::new(x + str_len(grapheme), y);
        }
        if self.kind != DocKind::Output {
            self.shift_cursors_by_insert(clamped, position, text_len);
        }
        position
    }

    /// Takes out the text from `start` to `end` (each kept within the document); the lines
    /// that go are handed to `line_pool`.
    pub fn delete(&mut self, start: Position, end: Position, line_pool: &mut LinePool)
        requires
            old(self).wf(),
            pos_le(clamp(old(self).lines_view(), start), clamp(old(self).lines_view(), end)),
            on_char(old(self).lines_view(), clamp(old(self).lines_view(), start)),
            on_char(old(self).lines_view(), clamp(old(self).lines_view(), end)),
            old(self).kind_view() != DocKind::Output ==> cursors_fit(old(self).cursors_view(), start.x as int),
        ensures
            final(self).wf(),
            final(self).kind_view() == old(self).kind_view(),
            final(self).line_ending_view() == old(self).line_ending_view(),
            final(self).lines_view() == delete_lines(
                old(self).lines_view(),
                clamp(old(self).lines_view(), start),
                clamp(old(self).lines_view(), end),
            ),
            same_annotations(old(self), final(self)),
            same_cursor_history(old(self), final(self)),
            old(self).kind_view() == DocKind::Output ==> final(self).cursors_view() == old(self).cursors_view(),
            old(self).kind_view() != DocKind::Output ==> final(self).cursors_view() == cursors_shifted_by_delete(
                old(self).cursors_view(),
                clamp(old(self).lines_view(), start),
                clamp(old(self).lines_view(), end),
            ),
            clamp(old(self).lines_view(), start) == clamp(old(self).lines_view(), end) ==> undirtied(old(self), final(self)),
            clamp(old(self).lines_view(), start) != clamp(old(self).lines_view(), end) ==> dirtied(
                old(self),
                final(self),
                clamp(old(self).lines_view(), start).y,
            ),
    {
        let ghost ls = self.lines_view();
        let bound = start.x;
        let start = self.clamp_position(start);
        let end = self.clamp_position(end);
        if start == end {
            proof {
                lemma_delete_nothing(self.cursors@, start);
            }
            return;
        }
        self.mark_line_dirty(start.y);
        if start.y == end.y {
            drain_range(&mut self.lines[start.y], start.x, end.x);
            proof {
                assert(self.lines_view() =~= delete_lines(ls, start, end));
            }
            if self.kind != DocKind::Output {
                self.shift_cursors_by_delete(start, end, bound);
            }
            return;
        }
        let mut removed = self.lines.split_off(start.y + 1);
        let mut tail = removed.split_off(end.y - start.y);
        let last = removed[end.y - start.y - 1].as_str();
        proof {
            lemma_as_str(&removed@[end.y - start.y - 1], last);
            lemma_str_valid(last);
        }
        truncate_string(&mut self.lines[start.y], start.x);
        push_str(&mut self.lines[start.y], sub_str(last, end.x, str_len(last)));
        self.lines.append(&mut tail);
        proof {
            assert(self.lines_view() =~= delete_lines(ls, start, end));
        }
        while removed.len() > 0
            invariant
                true,
            decreases removed@.len(),
        {
            match removed.pop() {
                Some(line) => line_pool.push(line),
                None => {},
            }
        }
        if self.kind != DocKind::Output {
            self.shift_cursors_by_delete(start, end, bound);
        }
    }

    /// Moves `position` (kept within the document) by `delta_y` lines and then by `delta_x`
    /// graphemes, going on across line ends.
    pub fn move_position(&self, position: Position, delta_x: isize, delta_y: isize) -> (r: Position)
        requires
            self.wf(),
            delta_x != isize::MIN,
            delta_x != 0 && lands_within(self.lines_view(), position, delta_y as int) ==> on_char(
                self.lines_view(),
                moved_vertically(self.lines_view(), position, delta_y as int),
            ),
        ensures
            r == moved(self.lines_view(), self.line_chars(), position, delta_x as int, delta_y as int),
            r.y < self.lines_view().len(),
            r.x <= self.lines_view()[r.y as int].len(),
            on_char(self.lines_view(), moved_vertically(self.lines_view(), position, delta_y as int))
                ==> on_char(self.lines_view(), r),
            delta_y == 0 && delta_x >= 0 ==> pos_le(clamp(self.lines_view(), position), r),
            delta_y == 0 && delta_x < 0 ==> pos_le(r, clamp(self.lines_view(), position)),
    {
        let ghost ls = self.lines_view();
        let ghost lc = self.line_chars();
        let mut moving = self.clamp_position(position);
        let line_count = self.lines.len();
        let new_y: usize;
        if delta_y < 0 {
            let up = (0 - (delta_y + 1)) as usize + 1;
            if up > moving.y {
                return Position::new(0, 0);
            }
            new_y = moving.y - up;
        } else {
            let down = delta_y as usize;
            if down > usize::MAX - moving.y {
                return Position::new(0, 0);
            }
            new_y = moving.y + down;
        }
        if new_y >= line_count {
            let last = line_count - 1;
            return Position::new(self.get_line_len(last), last);
        }
        moving.y = new_y;
        if delta_y != 0 && moving.x > self.get_line_len(new_y) {
            moving.x = self.get_line_len(new_y);
        }
        let ghost start = moving;
        let right = delta_x >= 0;
        let count: usize = if right { delta_x as usize } else { (0 - (delta_x + 1)) as usize + 1 };
        let ghost target = steps(ls, lc, moving, count as nat, right);
        let mut i: usize = 0;
        while i < count
            invariant_except_break
                i <= count,
            invariant
                ls == self.lines_view(),
                lc == self.line_chars(),
                ls.len() == line_count,
                moving.y < line_count,
                moving.x <= ls[moving.y as int].len(),
                count > 0 ==> on_char(ls, moving),
                target == steps(ls, lc, moving, (count - i) as nat, right),
                right ==> pos_le(start, moving),
                !right ==> pos_le(moving, start),
                on_char(ls, start) ==> on_char(ls, moving),
            ensures
                target == moving,
                moving.y < line_count,
                moving.x <= ls[moving.y as int].len(),
                right ==> pos_le(start, moving),
                !right ==> pos_le(moving, start),
                on_char(ls, start) ==> on_char(ls, moving),
            decreases count - i,
        {
            let ghost p = moving;
            if right {
                if self.move_position_to_next_grapheme(&mut moving) {
                    i = i + 1;
                    continue;
                }
                if moving.y == line_count - 1 {
                    proof {
                        lemma_steps_stay(ls, lc, p, (count - i) as nat, right);
                    }
                    break;
                }
                moving.x = 0;
                moving.y = moving.y + 1;
                proof {
                    is_char_boundary_start_end_of_seq(ls[moving.y as int]);
                }
            } else {
                if self.move_position_to_previous_grapheme(&mut moving) {
                    i = i + 1;
                    continue;
                }
                if moving.y == 0 {
                    proof {
                        lemma_steps_stay(ls, lc, p, (count - i) as nat, right);
                    }
                    break;
                }
                moving.y = moving.y - 1;
                moving.x = self.get_line_len(moving.y);
                proof {
                    is_char_boundary_start_end_of_seq(ls[moving.y as int]);
                }
            }
            i = i + 1;
        }
        moving
    }

    /// Which way a move by `direction_x` looks at its first grapheme: back one for a move to
    /// the left, at the position itself otherwise.
    fn get_side_offset(direction_x: isize) -> (r: isize)
        ensures
            r == if direction_x < 0 { -1isize } else { 0isize },
    {
        if direction_x < 0 {
            -1
        } else {
            0
        }
    }

    /// Moves `position` (kept within the document) by `delta_x` graphemes at a time while the
    /// grapheme it passes is of `category` (and not a line feed) and it gets anywhere.
    pub fn move_position_skipping_category(&self, position: Position, delta_x: isize, category: GraphemeCategory) -> (r: Position)
        requires
            self.wf(),
            delta_x != isize::MIN,
            on_char(self.lines_view(), clamp(self.lines_view(), position)),
        ensures
            r == skipped(self.lines_view(), self.line_chars(), clamp(self.lines_view(), position), delta_x as int, category),
            on_char(self.lines_view(), r),
            delta_x >= 0 ==> pos_le(clamp(self.lines_view(), position), r),
            delta_x < 0 ==> pos_le(r, clamp(self.lines_view(), position)),
    {
        let ghost ls = self.lines_view();
        let ghost lc = self.line_chars();
        let ghost forward = delta_x >= 0;
        let mut moving = self.clamp_position(position);
        let side_offset = Self::get_side_offset(delta_x);
        let ghost target = skipped(ls, lc, moving, delta_x as int, category);
        let ghost mut fuel: nat = room(ls, moving, forward);
        let line_count = self.lines.len();
        let last_len = self.get_line_len(line_count - 1);
        loop
            invariant
                last_len == ls.last().len(),
                line_count == ls.len(),
                ls == self.lines_view(),
                lc == self.line_chars(),
                self.wf(),
                delta_x != isize::MIN,
                side_offset == if delta_x < 0 { -1isize } else { 0isize },
                forward == (delta_x >= 0),
                on_char(ls, moving),
                fuel >= room(ls, moving, forward),
                target == skipped(ls, lc, clamp(ls, position), delta_x as int, category),
                target == skip_from(ls, lc, moving, delta_x as int, category, fuel),
                forward ==> pos_le(clamp(ls, position), moving),
                !forward ==> pos_le(moving, clamp(ls, position)),
            decreases fuel,
        {
            let side = self.move_position(moving, side_offset, 0);
            let current_category = GraphemeCategory::new(self.get_grapheme(side));
            let next_position = self.move_position(moving, delta_x, 0);
            if current_category != category || current_category == GraphemeCategory::Newline
                || next_position == moving {
                return moving;
            }
            proof {
                lemma_end_within(ls, moving);
                lemma_end_within(ls, next_position);
                lemma_flat_order(ls, moving, doc_end(ls));
                lemma_flat_order(ls, next_position, doc_end(ls));
                if forward {
                    lemma_flat_order(ls, moving, next_position);
                } else {
                    lemma_flat_order(ls, next_position, moving);
                }
                fuel = (fuel - 1) as nat;
            }
            moving = next_position;
        }
    }

    /// Moves `position` to the next word by `delta_x`: past white space, then past the
    /// graphemes of the category that follows it; where that gets nowhere, by one move.
    pub fn move_position_to_next_word(&self, position: Position, delta_x: isize) -> (r: Position)
        requires
            self.wf(),
            delta_x != isize::MIN,
            on_char(self.lines_view(), clamp(self.lines_view(), position)),
        ensures
            r == next_word(self.lines_view(), self.line_chars(), position, delta_x as int),
            on_char(self.lines_view(), r),
    {
        let starting_position = self.move_position_skipping_category(position, delta_x, GraphemeCategory::Space);
        let side_offset = Self::get_side_offset(delta_x);
        let starting_category = GraphemeCategory::new(
            self.get_grapheme(self.move_position(starting_position, side_offset, 0)),
        );
        let ending_position = self.move_position_skipping_category(starting_position, delta_x, starting_category);
        if ending_position == position {
            self.move_position(ending_position, delta_x, 0)
        } else {
            ending_position
        }
    }

    /// Moves `position` (kept within the document) by `delta_y` lines at a time while the
    /// line it is on is empty (`do_skip_empty_lines`) or has text (otherwise) and it gets
    /// anywhere.
    pub fn move_position_skipping_lines(&self, position: Position, delta_y: isize, do_skip_empty_lines: bool) -> (r: Position)
        requires
            self.wf(),
            delta_y > 0 ==> self.lines_view().len() - 1 + delta_y <= usize::MAX,
        ensures
            r == lines_skipped(self.lines_view(), clamp(self.lines_view(), position), delta_y as int, do_skip_empty_lines),
            within(self.lines_view(), r),
    {
        let ghost ls = self.lines_view();
        let ghost lc = self.line_chars();
        let ghost forward = delta_y >= 0;
        let mut moving = self.clamp_position(position);
        let ghost target = lines_skipped(ls, moving, delta_y as int, do_skip_empty_lines);
        let ghost mut fuel: nat = room(ls, moving, forward);
        let line_count = self.lines.len();
        let last_len = self.get_line_len(line_count - 1);
        loop
            invariant
                last_len == ls.last().len(),
                line_count == ls.len(),
                ls == self.lines_view(),
                lc == self.line_chars(),
                self.wf(),
                delta_y > 0 ==> ls.len() - 1 + delta_y <= usize::MAX,
                forward == (delta_y >= 0),
                within(ls, moving),
                fuel >= room(ls, moving, forward),
                target == lines_skipped(ls, clamp(ls, position), delta_y as int, do_skip_empty_lines),
                target == lines_skip_from(ls, moving, delta_y as int, do_skip_empty_lines, fuel),
            decreases fuel,
        {
            let current_line_is_empty = self.get_line_len(moving.y) == 0;
            let next_position = self.move_position(moving, 0, delta_y);
            proof {
                assert(steps(ls, lc, moved_vertically(ls, moving, delta_y as int), 0, true) == moved_vertically(ls, moving, delta_y as int));
            }
            if current_line_is_empty != do_skip_empty_lines || next_position == moving {
                return moving;
            }
            proof {
                let c = clamp(ls, moving);
                assert(c == moving);
                lemma_end_within(ls, moving);
                lemma_end_within(ls, next_position);
                lemma_flat_order(ls, moving, doc_end(ls));
                lemma_flat_order(ls, next_position, doc_end(ls));
                if forward {
                    assert(pos_le(moving, next_position));
                    lemma_flat_order(ls, moving, next_position);
                } else {
                    assert(pos_le(next_position, moving));
                    lemma_flat_order(ls, next_position, moving);
                }
                fuel = (fuel - 1) as nat;
            }
            moving = next_position;
        }
    }

    /// Moves `position` to the next paragraph by `delta_y`: past empty lines first if
    /// `do_skip_leading_whitespace`, then past the lines as empty as the one reached.
    pub fn move_position_to_next_paragraph(&self, position: Position, delta_y: isize, do_skip_leading_whitespace: bool) -> (r: Position)
        requires
            self.wf(),
            delta_y > 0 ==> self.lines_view().len() - 1 + delta_y <= usize::MAX,
        ensures
            r == next_paragraph(self.lines_view(), position, delta_y as int, do_skip_leading_whitespace),
            within(self.lines_view(), r),
    {
        let starting_position = if do_skip_leading_whitespace {
            self.move_position_skipping_lines(position, delta_y, true)
        } else {
            self.clamp_position(position)
        };
        let starting_line_is_empty = self.get_line_len(starting_position.y) == 0;
        let r = self.move_position_skipping_lines(starting_position, delta_y, starting_line_is_empty);
        proof {
            assert(clamp(self.lines_view(), starting_position) == starting_position);
        }
        r
    }

    /// Looks for `text` from `start` (kept within the document) on, line by line, going on
    /// at the first line after the last if `do_wrap`, and returns where a match starts.
    pub fn search_forward(&self, text: &str, start: Position, do_wrap: bool) -> (r: Option<Position>)
        requires
            self.wf(),
            on_char(self.lines_view(), clamp(self.lines_view(), start)),
            bytes(text).len() > 0 ==> !(search_forward_from(
                self.lines_view(),
                bytes(text),
                clamp(self.lines_view(), start),
                do_wrap,
            ) is BeforeLineStart),
        ensures
            bytes(text).len() == 0 ==> r == Some(clamp(self.lines_view(), start)),
            bytes(text).len() > 0 ==> r == found_at(
                search_forward_from(self.lines_view(), bytes(text), clamp(self.lines_view(), start), do_wrap),
            ),
    {
        let begin = self.clamp_position(start);
        let text_len = str_len(text);
        if text_len == 0 {
            return Some(begin);
        }
        proof {
            lemma_str_valid(text);
        }
        let ghost ls = self.lines_view();
        let ghost tb = bytes(text);
        let ghost target = search_forward_from(ls, tb, begin, do_wrap);
        let line_count = self.lines.len();
        let mut y = begin.y;
        let mut x = begin.x;
        let mut match_cursor = CharCursor::new(0, text_len);
        let ghost mut n: nat = (ls.len() - 1) as nat;
        loop
            invariant
                ls == self.lines_view(),
                ls.len() == line_count,
                tb == bytes(text),
                text_len == tb.len(),
                text_len > 0,
                valid_utf8(tb),
                begin.y < line_count,
                y < line_count,
                x <= ls[y as int].len(),
                boundary(ls[y as int], x as int),
                match_cursor.spec_len() == text_len,
                match_cursor.spec_index() < text_len,
                boundary(tb, match_cursor.spec_index() as int),
                y >= begin.y ==> n == ls.len() - 1 - (y - begin.y),
                y < begin.y ==> n == begin.y - y - 1,
                begin == clamp(ls, start),
                target == search_forward_from(ls, tb, begin, do_wrap),
                target == search_from(ls, tb, y as int, x as int, match_cursor.spec_index() as int, begin.y as int, do_wrap, n),
                !(target is BeforeLineStart),
            decreases n,
        {
            let line = self.lines[y].as_str();
            proof {
                lemma_as_str(&self.lines@[y as int], line);
                lemma_str_valid(line);
            }
            let mut chars = CharIterator::with_offset(x, line);
            loop
                invariant
                    ls == self.lines_view(),
                    ls.len() == line_count,
                    tb == bytes(text),
                    text_len == tb.len(),
                    text_len > 0,
                    valid_utf8(tb),
                    y < line_count,
                    bytes(line) == ls[y as int],
                    chars.wf(),
                    chars.spec_text() == line,
                    chars.spec_index() == x,
                    x <= ls[y as int].len(),
                    boundary(ls[y as int], x as int),
                    match_cursor.spec_len() == text_len,
                    match_cursor.spec_index() < text_len,
                    boundary(tb, match_cursor.spec_index() as int),
                    begin == clamp(ls, start),
                    target == search_forward_from(ls, tb, begin, do_wrap),
                    target == search_from(ls, tb, y as int, x as int, match_cursor.spec_index() as int, begin.y as int, do_wrap, n),
                    !(target is BeforeLineStart),
                ensures
                    x == ls[y as int].len(),
                    match_cursor.spec_len() == text_len,
                    match_cursor.spec_index() < text_len,
                    boundary(tb, match_cursor.spec_index() as int),
                    target == search_from(ls, tb, y as int, x as int, match_cursor.spec_index() as int, begin.y as int, do_wrap, n),
                decreases ls[y as int].len() - x,
            {
                let c = match chars.next() {
                    Some(c) => c,
                    None => {
                        break;
                    },
                };
                let ghost ce = chars.spec_index();
                let ghost m = match_cursor.spec_index() as int;
                proof {
                    lemma_next_char_end(ls[y as int], x as int, ce as int);
                }
                let char_end = x + str_len(c);
                assert(char_end == ce);
                let current = char_at(match_cursor.index(), text);
                proof {
                    let j = choose|j: int| is_next_char_boundary(tb, m, j) && j <= tb.len() && bytes(current) == tb.subrange(m, j);
                    lemma_next_char_end(tb, m, j);
                }
                if super::strs::str_eq(current, c) {
                    match_cursor.next_boundary(text);
                    proof {
                        lemma_next_char_end(tb, m, match_cursor.spec_index() as int);
                    }
                    if match_cursor.index() >= text_len {
                        return Some(Position::new(char_end - text_len, y));
                    }
                } else if match_cursor.index() > 0 {
                    match_cursor.set_index(0);
                    let first = char_at(0, text);
                    proof {
                        is_char_boundary_start_end_of_seq(tb);
                        let j = choose|j: int| is_next_char_boundary(tb, 0, j) && j <= tb.len() && bytes(first) == tb.subrange(0, j);
                        lemma_next_char_end(tb, 0, j);
                    }
                    if super::strs::str_eq(first, c) {
                        match_cursor.next_boundary(text);
                        proof {
                            lemma_next_char_end(tb, 0, match_cursor.spec_index() as int);
                        }
                        if match_cursor.index() >= text_len {
                            return Some(Position::new(char_end - text_len, y));
                        }
                    }
                }
                x = char_end;
            }
            y = y + 1;
            if y >= line_count {
                if do_wrap {
                    y = 0;
                } else {
                    return None;
                }
            }
            if y == begin.y {
                return None;
            }
            x = 0;
            proof {
                n = (n - 1) as nat;
                is_char_boundary_start_end_of_seq(ls[y as int]);
            }
        }
    }

    /// Takes out the white space that each line ends with; the lines are walked back grapheme
    /// by grapheme from their ends.
    pub fn trim_trailing_whitespace(&mut self, line_pool: &mut LinePool)
        requires
            old(self).wf(),
            old(self).kind_view() != DocKind::Output ==> forall|k: int|
                0 <= k < old(self).lines_view().len() ==> cursors_fit(
                    old(self).cursors_view(),
                    #[trigger] old(self).lines_view()[k].len() as int,
                ),
        ensures
            final(self).wf(),
            final(self).kind_view() == old(self).kind_view(),
            final(self).line_ending_view() == old(self).line_ending_view(),
            final(self).lines_view() == trimmed_lines(old(self).lines_view(), old(self).line_chars()),
            same_annotations(old(self), final(self)),
            same_cursor_history(old(self), final(self)),
            old(self).kind_view() == DocKind::Output ==> final(self).cursors_view() == old(self).cursors_view(),
            old(self).kind_view() != DocKind::Output ==> final(self).cursors_view() == trimmed_cursors(
                old(self).lines_view(),
                old(self).line_chars(),
                old(self).cursors_view(),
            ),
            match first_trimmed(old(self).lines_view(), old(self).line_chars(), old(self).lines_view().len() as int) {
                Some(k) => dirtied(old(self), final(self), k as usize),
                None => undirtied(old(self), final(self)),
            },
    {
        let ghost ls0 = self.lines_view();
        let ghost lc0 = self.line_chars();
        let line_count = self.lines.len();
        let mut y: usize = 0;
        while y < line_count
            invariant
                self.wf(),
                self.kind == old(self).kind,
                self.line_ending == old(self).line_ending,
                ls0 == old(self).lines_view(),
                lc0 == old(self).line_chars(),
                ls0.len() == line_count,
                self.lines@.len() == line_count,
                y <= line_count,
                forall|k: int| 0 <= k < y ==> self.lines_view()[k] == trimmed_lines(ls0, lc0)[k],
                forall|k: int| y <= k < line_count ==> #[trigger] self.lines@[k]@ == lc0[k],
                same_annotations(old(self), self),
                same_cursor_history(old(self), self),
                self.kind == DocKind::Output ==> self.cursors@ == old(self).cursors@,
                self.kind != DocKind::Output ==> self.cursors@ == cursors_trimmed_below(ls0, lc0, old(self).cursors@, y as int),
                self.kind != DocKind::Output ==> forall|k: int|
                    y <= k < line_count ==> cursors_fit(self.cursors@, #[trigger] ls0[k].len() as int),
                match first_trimmed(ls0, lc0, y as int) {
                    Some(k) => dirtied(old(self), self, k as usize),
                    None => undirtied(old(self), self),
                },
            decreases line_count - y,
        {
            let line = self.lines[y].as_str();
            proof {
                lemma_as_str(&self.lines@[y as int], line);
                lemma_str_valid(line);
                assert(line@ == lc0[y as int]);
            }
            let len = str_len(line);
            let mut whitespace_start: usize = 0;
            let mut cursor = GraphemeCursor::new(len, len);
            loop
                invariant
                    len == bytes(line).len(),
                    cursor.spec_len() == len,
                    cursor.spec_index() <= len,
                    boundary(bytes(line), cursor.spec_index() as int),
                    whitespace_start <= len,
                    boundary(bytes(line), whitespace_start as int),
                    trailing_white_start(line@) == trailing_white_from(line@, len, cursor.spec_index(), whitespace_start),
                ensures
                    whitespace_start <= len,
                    boundary(bytes(line), whitespace_start as int),
                    trailing_white_start(line@) == whitespace_start,
                decreases cursor.spec_index(),
            {
                let i = cursor.index();
                let grapheme = at(i, line);
                if !is_whitespace(grapheme) {
                    break;
                }
                whitespace_start = i;
                match cursor.previous_boundary(line) {
                    Some(_) => {},
                    None => {
                        break;
                    },
                }
            }
            let ghost ls = self.lines_view();
            let ghost lines_before = self.lines@;
            proof {
                lemma_first_trimmed_below(ls0, lc0, y as int);
                assert(ls[y as int] == ls0[y as int]);
                assert(first_trimmed(ls0, lc0, y + 1) == match first_trimmed(ls0, lc0, y as int) {
                    Some(k) => Some(k),
                    None => if trailing_white_start(lc0[y as int]) < ls0[y as int].len() {
                        Some(y as int)
                    } else {
                        None
                    },
                });
            }
            let ghost cs = self.cursors@;
            let ghost s = Position { x: whitespace_start, y };
            let ghost e = Position { x: len, y };
            proof {
                if self.kind != DocKind::Output {
                    lemma_fits_less(cs, ls0[y as int].len() as int, whitespace_start as int);
                }
            }
            if whitespace_start < len {
                self.delete(Position::new(whitespace_start, y), Position::new(len, y), line_pool);
                proof {
                    let l = ls[y as int];
                    assert(l.subrange(0, whitespace_start as int) + l.subrange(len as int, len as int) =~= l.subrange(0, whitespace_start as int));
                    if self.kind != DocKind::Output {
                        assert(clamp(ls, s) == s);
                        assert(clamp(ls, e) == e);
                        lemma_trim_step(ls0, lc0, old(self).cursors@, y as int, s, e);
                        assert forall|k: int| y + 1 <= k < line_count implies cursors_fit(
                            self.cursors@,
                            #[trigger] ls0[k].len() as int,
                        ) by {
                            lemma_delete_in_line_fits(cs, s, e, ls0[k].len() as int);
                        }
                    }
                }
            } else {
                proof {
                    assert(ls[y as int].subrange(0, len as int) =~= ls[y as int]);
                    if self.kind != DocKind::Output {
                        lemma_trim_step(ls0, lc0, old(self).cursors@, y as int, s, e);
                        lemma_delete_nothing(cs, s);
                    }
                }
            }
            proof {
                assert(self.lines_view().len() == self.lines@.len());
                assert forall|k: int| y < k < line_count implies #[trigger] self.lines@[k]@ == lc0[k] by {
                    assert(self.lines_view()[k] == ls[k]);
                    assert(ls[k] == encode_utf8(lines_before[k]@));
                    lemma_encode_injective(self.lines@[k]@, lines_before[k]@);
                }
            }
            y = y + 1;
        }
        proof {
            assert(self.lines_view() =~= trimmed_lines(ls0, lc0));
        }
    }

    /// Looks for `text` back from one grapheme before `start`, line by line, going on at the
    /// last line after the first if `do_wrap`, and returns where a match starts.
    pub fn search_backward(&self, text: &str, start: Position, do_wrap: bool) -> (r: Option<Position>)
        requires
            self.wf(),
            on_char(self.lines_view(), clamp(self.lines_view(), start)),
        ensures
            bytes(text).len() == 0 ==> r == Some(moved(self.lines_view(), self.line_chars(), start, -1, 0)),
            bytes(text).len() > 0 ==> r == search_backward_from(
                self.lines_view(),
                bytes(text),
                moved(self.lines_view(), self.line_chars(), start, -1, 0),
                do_wrap,
            ),
    {
        let begin = self.move_position(start, -1, 0);
        let text_len = str_len(text);
        if text_len == 0 {
            return Some(begin);
        }
        proof {
            lemma_str_valid(text);
        }
        let ghost ls = self.lines_view();
        let ghost tb = bytes(text);
        let ghost target = search_backward_from(ls, tb, begin, do_wrap);
        let line_count = self.lines.len();
        let mut y = begin.y;
        let mut x = begin.x;
        let mut match_cursor = CharCursor::new(text_len, text_len);
        let ghost mut n: nat = (ls.len() - 1) as nat;
        loop
            invariant
                ls == self.lines_view(),
                ls.len() == line_count,
                tb == bytes(text),
                text_len == tb.len(),
                text_len > 0,
                valid_utf8(tb),
                boundary(tb, tb.len() as int),
                begin.y < line_count,
                y < line_count,
                x <= ls[y as int].len(),
                boundary(ls[y as int], x as int),
                match_cursor.spec_len() == text_len,
                0 < match_cursor.spec_index() <= text_len,
                boundary(tb, match_cursor.spec_index() as int),
                y <= begin.y ==> n == ls.len() - 1 - (begin.y - y),
                y > begin.y ==> n == y - begin.y - 1,
                begin == moved(ls, self.line_chars(), start, -1, 0),
                target == search_backward_from(ls, tb, begin, do_wrap),
                target == search_back_from(ls, tb, y as int, x as int, match_cursor.spec_index() as int, begin.y as int, do_wrap, n),
            decreases n,
        {
            let line = self.lines[y].as_str();
            proof {
                lemma_as_str(&self.lines@[y as int], line);
                lemma_str_valid(line);
            }
            let mut chars = CharIterator::with_offset(x, line);
            loop
                invariant
                    ls == self.lines_view(),
                    ls.len() == line_count,
                    tb == bytes(text),
                    text_len == tb.len(),
                    text_len > 0,
                    valid_utf8(tb),
                    boundary(tb, tb.len() as int),
                    y < line_count,
                    bytes(line) == ls[y as int],
                    chars.wf(),
                    chars.spec_text() == line,
                    chars.spec_index() == x,
                    x <= ls[y as int].len(),
                    boundary(ls[y as int], x as int),
                    match_cursor.spec_len() == text_len,
                    0 < match_cursor.spec_index() <= text_len,
                    boundary(tb, match_cursor.spec_index() as int),
                    begin == moved(ls, self.line_chars(), start, -1, 0),
                    target == search_backward_from(ls, tb, begin, do_wrap),
                    target == search_back_from(ls, tb, y as int, x as int, match_cursor.spec_index() as int, begin.y as int, do_wrap, n),
                ensures
                    x == 0,
                    0 < match_cursor.spec_index() <= text_len,
                    boundary(tb, match_cursor.spec_index() as int),
                    target == search_back_from(ls, tb, y as int, x as int, match_cursor.spec_index() as int, begin.y as int, do_wrap, n),
                decreases x,
            {
                let c = match chars.next_back() {
                    Some(c) => c,
                    None => {
                        break;
                    },
                };
                let ghost cs = chars.spec_index();
                let ghost m = match_cursor.spec_index() as int;
                proof {
                    lemma_prev_char_start(ls[y as int], x as int, cs as int);
                }
                let char_start = x - str_len(c);
                assert(char_start == cs);
                let current = char_ending_at(match_cursor.index(), text);
                proof {
                    let j = choose|j: int| is_prev_char_boundary(tb, m, j) && bytes(current) == tb.subrange(j, m);
                    lemma_prev_char_start(tb, m, j);
                }
                if super::strs::str_eq(current, c) {
                    match_cursor.previous_boundary(text);
                    proof {
                        lemma_prev_char_start(tb, m, match_cursor.spec_index() as int);
                    }
                    if match_cursor.index() == 0 {
                        return Some(Position::new(char_start, y));
                    }
                } else if match_cursor.index() < text_len {
                    match_cursor.set_index(text_len);
                    let last = char_ending_at(text_len, text);
                    proof {
                        let j = choose|j: int| is_prev_char_boundary(tb, tb.len() as int, j) && bytes(last) == tb.subrange(j, tb.len() as int);
                        lemma_prev_char_start(tb, tb.len() as int, j);
                    }
                    if super::strs::str_eq(last, c) {
                        match_cursor.previous_boundary(text);
                        proof {
                            lemma_prev_char_start(tb, tb.len() as int, match_cursor.spec_index() as int);
                        }
                        if match_cursor.index() == 0 {
                            return Some(Position::new(char_start, y));
                        }
                    }
                }
                x = char_start;
            }
            if y == 0 {
                if do_wrap {
                    y = line_count - 1;
                } else {
                    return None;
                }
            } else {
                y = y - 1;
            }
            if y == begin.y {
                return None;
            }
            x = self.get_line_len(y);
            proof {
                n = (n - 1) as nat;
                is_char_boundary_start_end_of_seq(ls[y as int]);
            }
        }
    }

    /// Looks for `text` from `start`, forward or (if `is_reverse`) back, going on round the
    /// document, and returns where a match starts.
    pub fn search(&self, text: &str, start: Position, is_reverse: bool) -> (r: Option<Position>)
        requires
            self.wf(),
            on_char(self.lines_view(), clamp(self.lines_view(), start)),
            !is_reverse && bytes(text).len() > 0 ==> !(search_forward_from(
                self.lines_view(),
                bytes(text),
                clamp(self.lines_view(), start),
                true,
            ) is BeforeLineStart),
        ensures
            is_reverse && bytes(text).len() == 0 ==> r == Some(moved(self.lines_view(), self.line_chars(), start, -1, 0)),
            is_reverse && bytes(text).len() > 0 ==> r == search_backward_from(
                self.lines_view(),
                bytes(text),
                moved(self.lines_view(), self.line_chars(), start, -1, 0),
                true,
            ),
            !is_reverse && bytes(text).len() == 0 ==> r == Some(clamp(self.lines_view(), start)),
            !is_reverse && bytes(text).len() > 0 ==> r == found_at(
                search_forward_from(self.lines_view(), bytes(text), clamp(self.lines_view(), start), true),
            ),
    {
        if is_reverse {
            self.search_backward(text, start, true)
        } else {
            self.search_forward(text, start, true)
        }
    }

    /// The line ending that loading `string` sets, and how many of its bytes are put in.
    fn get_line_ending_and_len(&self, string: &str) -> (r: (LineEnding, usize))
        ensures
            r == line_ending_and_len(string@, self.kind_view() == DocKind::SingleLine),
            r.1 <= bytes(string).len(),
            boundary(bytes(string), r.1 as int),
    {
        proof {
            lemma_str_valid(string);
        }
        let n = str_len(string);
        let mut cursor = GraphemeCursor::new(0, n);
        let mut len: usize = 0;
        while len < n
            invariant
                n == bytes(string).len(),
                cursor.spec_len() == n,
                cursor.spec_index() == len,
                len <= n,
                boundary(bytes(string), len as int),
                boundary(bytes(string), n as int),
                first_line_break(string@, 0) == first_line_break(string@, len),
            decreases n - len,
        {
            let grapheme = at(len, string);
            cursor.next_boundary(string);
            let end = cursor.index();
            if is_crlf(grapheme) || super::grapheme::is_single_byte(grapheme, 0x0D)
                || super::grapheme::is_single_byte(grapheme, 0x0A) {
                let is_return_then_feed = super::grapheme::is_single_byte(grapheme, 0x0D) && match super::grapheme::get(end, string) {
                    Some(next) => super::grapheme::is_single_byte(next, 0x0A),
                    None => false,
                };
                let line_ending = if is_crlf(grapheme) || is_return_then_feed {
                    LineEnding::CrLf
                } else {
                    LineEnding::Lf
                };
                let len = if self.kind == DocKind::SingleLine {
                    len
                } else {
                    n
                };
                return (line_ending, len);
            }
            len = end;
        }
        (LineEnding::CrLf, n)
    }

    /// Empties the document to one line, handing its lines to `line_pool`, and sets the line
    /// ending back to a carriage return and a line feed.
    pub fn clear(&mut self, line_pool: &mut LinePool)
        requires
            old(self).wf(),
        ensures
            final(self).wf(),
            final(self).kind_view() == old(self).kind_view(),
            final(self).lines_view() == seq![Seq::<u8>::empty()],
            final(self).line_ending_view() == LineEnding::CrLf,
            same_annotations(old(self), final(self)),
            final(self).cursors_view() == seq![first_cursor()],
            final(self).cursor_undo_view() == old(self).cursor_undo_view(),
            final(self).cursor_redo_view() == old(self).cursor_redo_view(),
            dirtied(old(self), final(self), 0),
    {
        self.line_ending = LineEnding::CrLf;
        self.mark_line_dirty(0);
        let mut old_lines: Vec<String> = Vec::new();
        std::mem::swap(&mut old_lines, &mut self.lines);
        self.lines.push(line_pool.pop());
        while old_lines.len() > 0
            invariant
                true,
            decreases old_lines@.len(),
        {
            match old_lines.pop() {
                Some(line) => line_pool.push(line),
                None => {},
            }
        }
        self.reset_cursors();
        proof {
            assert(self.lines_view() =~= seq![Seq::<u8>::empty()]);
        }
    }

    /// Leaves one cursor, at the start of the document.
    fn reset_cursors(&mut self)
        ensures
            final(self).cursors@ == seq![first_cursor()],
            final(self).lines == old(self).lines,
            final(self).kind == old(self).kind,
            final(self).usages == old(self).usages,
            final(self).line_ending == old(self).line_ending,
            final(self).syntax_highlighter == old(self).syntax_highlighter,
            final(self).tokenizer == old(self).tokenizer,
            final(self).unhighlighted_line_y == old(self).unhighlighted_line_y,
            final(self).needs_tokenization == old(self).needs_tokenization,
            final(self).cursor_position_undo_history == old(self).cursor_position_undo_history,
            final(self).cursor_position_redo_history == old(self).cursor_position_redo_history,
    {
        self.cursors.clear();
        self.cursors.push(Cursor::new(Position::zero(), 0));
        proof {
            assert(self.cursors@ =~= seq![first_cursor()]);
        }
    }

    /// Loads the text `string` read from the document's file: empties the document, puts in
    /// the text (for a single line, only up to its first line break) and takes the line
    /// ending of its first line break.
    pub fn load(&mut self, string: &str, line_pool: &mut LinePool)
        requires
            old(self).wf(),
            bytes(string).len() <= isize::MAX,
        ensures
            final(self).wf(),
            final(self).kind_view() == old(self).kind_view(),
            final(self).lines_view() == loaded_lines(string@, old(self).kind_view() == DocKind::SingleLine),
            final(self).line_ending_view() == line_ending_and_len(
                string@,
                old(self).kind_view() == DocKind::SingleLine,
            ).0,
            same_annotations(old(self), final(self)),
            final(self).cursors_view() == seq![first_cursor()],
            final(self).cursor_undo_view() == old(self).cursor_undo_view(),
            final(self).cursor_redo_view() == old(self).cursor_redo_view(),
            dirtied(old(self), final(self), 0),
    {
        self.clear(line_pool);
        let (line_ending, len) = self.get_line_ending_and_len(string);
        proof {
            lemma_str_valid(string);
        }
        let text = sub_str(string, 0, len);
        proof {
            assert(text@ == decode_utf8(bytes(text)));
            assert(clamp(self.lines_view(), Position { x: 0, y: 0 }) == Position { x: 0, y: 0 });
            is_char_boundary_start_end_of_seq(self.lines_view()[0]);
            assert(self.cursors_view()[0] == first_cursor());
            assert(cursors_fit(self.cursors_view(), bytes(text).len() as int));
        }
        self.insert(Position::zero(), text, line_pool);
        self.reset_cursors();
        self.line_ending = line_ending;
    }

    /// Replaces the text with `string` read again from the document's file, taken in as
    /// `load` takes it, and keeps the cursors where they were, each kept within the new lines.
    pub fn reload(&mut self, string: &str, line_pool: &mut LinePool)
        requires
            old(self).wf(),
            bytes(string).len() <= isize::MAX,
        ensures
            final(self).wf(),
            final(self).kind_view() == old(self).kind_view(),
            final(self).lines_view() == loaded_lines(string@, old(self).kind_view() == DocKind::SingleLine),
            final(self).line_ending_view() == line_ending_and_len(
                string@,
                old(self).kind_view() == DocKind::SingleLine,
            ).0,
            same_annotations(old(self), final(self)),
            same_cursor_history(old(self), final(self)),
            final(self).cursors_view() == cursors_clamped(final(self).lines_view(), old(self).cursors_view()),
            ({
                let changed = old(self).lines_view() != seq![Seq::<u8>::empty()] || line_ending_and_len(
                    string@,
                    old(self).kind_view() == DocKind::SingleLine,
                ).1 > 0;
                &&& changed ==> dirtied(old(self), final(self), 0)
                &&& !changed ==> undirtied(old(self), final(self))
            }),
    {
        let ghost ls0 = self.lines_view();
        let mut saved: Vec<Cursor> = Vec::new();
        saved.push(Cursor::new(Position::zero(), 0));
        std::mem::swap(&mut saved, &mut self.cursors);
        let line_count = self.lines.len();
        let end = self.end();
        proof {
            assert(ls0.len() == line_count);
            assert(self.cursors_view()[0] == first_cursor());
            assert(cursors_fit(self.cursors_view(), 0));
            is_char_boundary_start_end_of_seq(ls0[0]);
            is_char_boundary_start_end_of_seq(ls0[end.y as int]);
            if end == (Position { x: 0, y: 0 }) {
                assert(ls0.len() == 1);
                assert(ls0[0] =~= Seq::<u8>::empty());
                assert(ls0 =~= seq![Seq::<u8>::empty()]);
            }
        }
        self.delete(Position::zero(), end, line_pool);
        proof {
            assert(self.lines_view() =~= seq![Seq::<u8>::empty()]);
        }
        let (line_ending, len) = self.get_line_ending_and_len(string);
        self.line_ending = line_ending;
        proof {
            lemma_str_valid(string);
        }
        let text = sub_str(string, 0, len);
        proof {
            assert(text@ == decode_utf8(bytes(text)));
            assert(clamp(self.lines_view(), Position { x: 0, y: 0 }) == Position { x: 0, y: 0 });
            is_char_boundary_start_end_of_seq(self.lines_view()[0]);
            assert(cursors_fit(self.cursors_view(), bytes(text).len() as int));
        }
        self.insert(Position::zero(), text, line_pool);
        std::mem::swap(&mut saved, &mut self.cursors);
        let ghost cs0 = self.cursors_view();
        let ghost ls = self.lines_view();
        let ghost unhighlighted = self.unhighlighted_line_y;
        let ghost needs = self.needs_tokenization;
        let count = self.cursors.len();
        let mut i: usize = 0;
        while i < count
            invariant
                self.wf(),
                ls == self.lines_view(),
                self.kind == old(self).kind,
                self.line_ending == line_ending,
                same_annotations(old(self), self),
                self.unhighlighted_line_y == unhighlighted,
                self.needs_tokenization == needs,
                same_cursor_history(old(self), self),
                count == cs0.len(),
                count == self.cursors_view().len(),
                i <= count,
                forall|k: int| 0 <= k < i ==> self.cursors_view()[k] == cursors_clamped(ls, cs0)[k],
                forall|k: int| i <= k < count ==> self.cursors_view()[k] == cs0[k],
            decreases count - i,
        {
            let cursor = &self.cursors[i];
            let position = self.clamp_position(cursor.position);
            let selection_anchor = match cursor.selection_anchor {
                Some(anchor) => Some(self.clamp_position(anchor)),
                None => None,
            };
            let updated = Cursor { position, selection_anchor, desired_visual_x: cursor.desired_visual_x };
            self.set_cursor(i, updated);
            i = i + 1;
        }
        proof {
            assert(self.cursors_view() =~= cursors_clamped(ls, cs0));
        }
    }

    /// The document's text: its lines joined by its line ending.
    pub fn to_string(&self) -> (r: String)
        requires
            self.wf(),
        ensures
            string_bytes(&r) == joined_by(self.lines_view(), ending_bytes(self.line_ending_view()), self.lines_view().len() as int),
    {
        let ghost ls = self.lines_view();
        let ghost sep = ending_bytes(self.line_ending);
        let mut r = String::new();
        let first = self.lines[0].as_str();
        proof {
            lemma_as_str(&self.lines@[0], first);
            assert(string_bytes(&r) =~= Seq::<u8>::empty());
        }
        push_str(&mut r, first);
        proof {
            assert(string_bytes(&r) =~= joined_by(ls, sep, 1));
        }
        let line_count = self.lines.len();
        let mut i: usize = 1;
        while i < line_count
            invariant
                ls == self.lines_view(),
                sep == ending_bytes(self.line_ending),
                line_count == ls.len(),
                1 <= i <= line_count,
                string_bytes(&r) == joined_by(ls, sep, i as int),
            decreases line_count - i,
        {
            match self.line_ending {
                LineEnding::Lf => push_newline(&mut r),
                LineEnding::CrLf => {
                    push_return(&mut r);
                    push_newline(&mut r);
                },
            }
            let line = self.lines[i].as_str();
            proof {
                lemma_as_str(&self.lines@[i as int], line);
            }
            push_str(&mut r, line);
            proof {
                assert(string_bytes(&r) =~= joined_by(ls, sep, i + 1));
            }
            i = i + 1;
        }
        r
    }

    /// The selection of the line at `position` together with its line break.
    pub fn select_current_line_at_position(&self, position: Position) -> (r: Selection)
        requires
            self.wf(),
        ensures
            r == line_selection(self.lines_view(), self.line_chars(), position.y),
    {
        let mut start = Position::new(0, position.y);
        let mut end = self.get_line_end(start.y);
        proof {
            let ls = self.lines_view();
            let c = clamp(ls, start);
            is_char_boundary_start_end_of_seq(ls[c.y as int]);
            let d = clamp(ls, end);
            is_char_boundary_start_end_of_seq(ls[d.y as int]);
        }
        if start.y == self.lines.len() - 1 {
            start = self.move_position(start, -1, 0);
        } else {
            end = self.move_position(end, 1, 0);
        }
        Selection { start, end }
    }

    /// The selection of the word at `position`.
    pub fn select_current_word_at_position(&self, position: Position) -> (r: Selection)
        requires
            self.wf(),
            on_char(self.lines_view(), clamp(self.lines_view(), position)),
        ensures
            r == word_selection(self.lines_view(), self.line_chars(), position),
    {
        let mut position = position;
        let line_len = self.get_line_len(position.y);
        if position.x < line_len {
            position = self.move_position(position, 1, 0);
        }
        if position.x > 0 {
            position = self.move_position_to_next_word(position, -1);
        }
        let start = position;
        if position.x < line_len {
            position = self.move_position_to_next_word(position, 1);
        }
        Selection { start, end: position }
    }

    /// Marks the highlights out of date from line `y` on, and the tokens.
    fn mark_line_dirty(&mut self, y: usize)
        ensures
            final(self).lines == old(self).lines,
            final(self).kind == old(self).kind,
            final(self).usages == old(self).usages,
            final(self).line_ending == old(self).line_ending,
            final(self).syntax_highlighter == old(self).syntax_highlighter,
            final(self).tokenizer == old(self).tokenizer,
            final(self).cursors == old(self).cursors,
            final(self).cursor_position_undo_history == old(self).cursor_position_undo_history,
            final(self).cursor_position_redo_history == old(self).cursor_position_redo_history,
            dirtied(old(self), final(self), y),
    {
        if y < self.unhighlighted_line_y {
            self.unhighlighted_line_y = y;
        }
        self.needs_tokenization = true;
    }

    /// Empties the highlights of every line and marks them all out of date.
    pub fn clear_highlights(&mut self)
        ensures
            final(self).lines_view() == old(self).lines_view(),
            final(self).line_chars() == old(self).line_chars(),
            final(self).usages_view() == old(self).usages_view(),
            final(self).wf() == old(self).wf(),
            same_cursors(old(self), final(self)),
            final(self).kind_view() == old(self).kind_view(),
            final(self).line_ending_view() == old(self).line_ending_view(),
            final(self).tokens_view() == old(self).tokens_view(),
            final(self).tokens_ready() == old(self).tokens_ready(),
            final(self).needs_tokenization_view() == old(self).needs_tokenization_view(),
            final(self).unhighlighted_view() == 0,
            final(self).highlights_view().len() == old(self).highlights_view().len(),
            forall|y: int| 0 <= y < final(self).highlights_view().len() ==> #[trigger] final(self).highlights_view()[y]
                == super::syntax_highlighter::empty_line(),
    {
        self.unhighlighted_line_y = 0;
        self.syntax_highlighter.clear();
    }

    /// Reads the identifiers of the lines again, where they changed since the last read.
    pub fn update_tokens(&mut self)
        ensures
            final(self).lines_view() == old(self).lines_view(),
            final(self).line_chars() == old(self).line_chars(),
            final(self).usages_view() == old(self).usages_view(),
            final(self).wf() == old(self).wf(),
            same_cursors(old(self), final(self)),
            final(self).kind_view() == old(self).kind_view(),
            final(self).line_ending_view() == old(self).line_ending_view(),
            final(self).highlights_view() == old(self).highlights_view(),
            final(self).unhighlighted_view() == old(self).unhighlighted_view(),
            !final(self).needs_tokenization_view(),
            old(self).needs_tokenization_view() ==> final(self).tokens_view() == lines_words(old(self).line_chars())
                && final(self).tokens_ready(),
            !old(self).needs_tokenization_view() ==> final(self).tokens_view() == old(self).tokens_view()
                && final(self).tokens_ready() == old(self).tokens_ready(),
    {
        if !self.needs_tokenization {
            return;
        }
        self.needs_tokenization = false;
        self.tokenizer.tokenize(self.lines.as_slice());
    }

    /// The identifiers of the lines, as last read.
    pub fn tokens(&self) -> (r: &Trie)
        ensures
            r@ == self.tokens_view(),
            r.has_root() == self.tokens_ready(),
    {
        self.tokenizer.tokens()
    }

    /// Highlights the lines from the first out of date one up to `end_y` (the last line in
    /// view), and marks the lines after it as the first out of date.
    pub fn update_highlights(&mut self, syntax: &Syntax, end_y: usize)
        requires
            end_y < usize::MAX,
            update_spec(
                old(self).highlights_view(),
                old(self).line_chars(),
                syntax,
                old(self).unhighlighted_view(),
                end_y,
            ) is Some,
        ensures
            final(self).lines_view() == old(self).lines_view(),
            final(self).line_chars() == old(self).line_chars(),
            final(self).usages_view() == old(self).usages_view(),
            final(self).wf() == old(self).wf(),
            same_cursors(old(self), final(self)),
            final(self).kind_view() == old(self).kind_view(),
            final(self).line_ending_view() == old(self).line_ending_view(),
            final(self).tokens_view() == old(self).tokens_view(),
            final(self).tokens_ready() == old(self).tokens_ready(),
            final(self).needs_tokenization_view() == old(self).needs_tokenization_view(),
            final(self).highlights_view() == update_spec(
                old(self).highlights_view(),
                old(self).line_chars(),
                syntax,
                old(self).unhighlighted_view(),
                end_y,
            )->0,
            final(self).unhighlighted_view() == end_y + 1,
    {
        proof {
            assert(texts_of(self.lines@) == self.line_chars());
        }
        self.syntax_highlighter.update(self.lines.as_slice(), syntax, self.unhighlighted_line_y, end_y);
        self.unhighlighted_line_y = end_y + 1;
    }

    /// Moves `|delta_y|` emptied lines of highlights through the region from `start` to
    /// `end`, as the view scrolls by `delta_y` lines.
    pub fn scroll_highlighted_lines(&mut self, start: usize, end: usize, delta_y: isize)
        requires
            delta_y != isize::MIN,
            delta_y == 0 || start < old(self).highlights_view().len(),
        ensures
            final(self).lines_view() == old(self).lines_view(),
            final(self).line_chars() == old(self).line_chars(),
            final(self).usages_view() == old(self).usages_view(),
            final(self).wf() == old(self).wf(),
            same_cursors(old(self), final(self)),
            final(self).kind_view() == old(self).kind_view(),
            final(self).line_ending_view() == old(self).line_ending_view(),
            final(self).tokens_view() == old(self).tokens_view(),
            final(self).tokens_ready() == old(self).tokens_ready(),
            undirtied(old(self), final(self)),
            ({
                let lines = old(self).highlights_view();
                let last = if lines.len() > 0 { lines.len() - 1 } else { 0 };
                let e = if end <= last { end as int } else { last };
                let (from, to) = if delta_y < 0 { (e, start as int) } else { (start as int, e) };
                let n = if delta_y < 0 { -delta_y } else { delta_y as int };
                final(self).highlights_view() == scrolled(lines, from, to, n as nat)
            }),
    {
        self.syntax_highlighter.scroll_highlighted_lines(start, end, delta_y);
    }

    /// Highlights line `y` from the terminal colors of its cells.
    pub fn highlight_line_from_terminal_colors(
        &mut self,
        colors: &[(TerminalHighlightKind, TerminalHighlightKind)],
        y: usize,
    )
        requires
            y < usize::MAX,
        ensures
            final(self).lines_view() == old(self).lines_view(),
            final(self).line_chars() == old(self).line_chars(),
            final(self).usages_view() == old(self).usages_view(),
            final(self).wf() == old(self).wf(),
            same_cursors(old(self), final(self)),
            final(self).kind_view() == old(self).kind_view(),
            final(self).line_ending_view() == old(self).line_ending_view(),
            final(self).tokens_view() == old(self).tokens_view(),
            final(self).tokens_ready() == old(self).tokens_ready(),
            undirtied(old(self), final(self)),
            final(self).highlights_view() == grown(old(self).highlights_view(), y + 1).update(
                y as int,
                terminal_line(colors@),
            ),
    {
        self.syntax_highlighter.highlight_line_from_terminal_colors(colors, y);
    }

    /// The highlights of the lines.
    pub fn highlighted_lines(&self) -> (r: &[HighlightedLine])
        ensures
            views(r@) == self.highlights_view(),
    {
        self.syntax_highlighter.highlighted_lines()
    }

    /// Moves every cursor as putting in the text from `start` to `end` moves its position and
    /// its selection anchor.
    fn shift_cursors_by_insert(&mut self, start: Position, end: Position, n: usize)
        requires
            insert_reach(start, end, n as int),
            cursors_fit(old(self).cursors@, n as int),
        ensures
            final(self).cursors@ == cursors_shifted_by_insert(old(self).cursors@, start, end),
            final(self).lines == old(self).lines,
            final(self).kind == old(self).kind,
            final(self).usages == old(self).usages,
            final(self).line_ending == old(self).line_ending,
            final(self).syntax_highlighter == old(self).syntax_highlighter,
            final(self).tokenizer == old(self).tokenizer,
            final(self).unhighlighted_line_y == old(self).unhighlighted_line_y,
            final(self).needs_tokenization == old(self).needs_tokenization,
            final(self).cursor_position_undo_history == old(self).cursor_position_undo_history,
            final(self).cursor_position_redo_history == old(self).cursor_position_redo_history,
    {
        let ghost cs0 = self.cursors@;
        let len = self.cursors.len();
        let mut i: usize = 0;
        while i < len
            invariant
                insert_reach(start, end, n as int),
                cursors_fit(cs0, n as int),
                cs0 == old(self).cursors@,
                len == self.cursors@.len(),
                len == cs0.len(),
                i <= len,
                forall|k: int| 0 <= k < i ==> self.cursors@[k] == cursors_shifted_by_insert(cs0, start, end)[k],
                forall|k: int| i <= k < len ==> self.cursors@[k] == cs0[k],
                self.lines == old(self).lines,
                self.kind == old(self).kind,
                self.usages == old(self).usages,
                self.line_ending == old(self).line_ending,
                self.syntax_highlighter == old(self).syntax_highlighter,
                self.tokenizer == old(self).tokenizer,
                self.unhighlighted_line_y == old(self).unhighlighted_line_y,
                self.needs_tokenization == old(self).needs_tokenization,
                self.cursor_position_undo_history == old(self).cursor_position_undo_history,
                self.cursor_position_redo_history == old(self).cursor_position_redo_history,
            decreases len - i,
        {
            let cursor = &self.cursors[i];
            proof {
                assert(cs0[i as int] == *cursor);
            }
            let position = shift_insert(start, end, cursor.position, n);
            let selection_anchor = match cursor.selection_anchor {
                Some(anchor) => Some(shift_insert(start, end, anchor, n)),
                None => None,
            };
            let updated = Cursor { position, selection_anchor, desired_visual_x: cursor.desired_visual_x };
            self.set_cursor(i, updated);
            i = i + 1;
        }
        proof {
            assert(self.cursors@ =~= cursors_shifted_by_insert(cs0, start, end));
        }
    }

    /// Moves every cursor as taking out the text from `start` to `end` moves its position and
    /// its selection anchor.
    fn shift_cursors_by_delete(&mut self, start: Position, end: Position, n: usize)
        requires
            start.x <= n,
            cursors_fit(old(self).cursors@, n as int),
        ensures
            final(self).cursors@ == cursors_shifted_by_delete(old(self).cursors@, start, end),
            final(self).lines == old(self).lines,
            final(self).kind == old(self).kind,
            final(self).usages == old(self).usages,
            final(self).line_ending == old(self).line_ending,
            final(self).syntax_highlighter == old(self).syntax_highlighter,
            final(self).tokenizer == old(self).tokenizer,
            final(self).unhighlighted_line_y == old(self).unhighlighted_line_y,
            final(self).needs_tokenization == old(self).needs_tokenization,
            final(self).cursor_position_undo_history == old(self).cursor_position_undo_history,
            final(self).cursor_position_redo_history == old(self).cursor_position_redo_history,
    {
        let ghost cs0 = self.cursors@;
        let len = self.cursors.len();
        let mut i: usize = 0;
        while i < len
            invariant
                start.x <= n,
                cursors_fit(cs0, n as int),
                cs0 == old(self).cursors@,
                len == self.cursors@.len(),
                len == cs0.len(),
                i <= len,
                forall|k: int| 0 <= k < i ==> self.cursors@[k] == cursors_shifted_by_delete(cs0, start, end)[k],
                forall|k: int| i <= k < len ==> self.cursors@[k] == cs0[k],
                self.lines == old(self).lines,
                self.kind == old(self).kind,
                self.usages == old(self).usages,
                self.line_ending == old(self).line_ending,
                self.syntax_highlighter == old(self).syntax_highlighter,
                self.tokenizer == old(self).tokenizer,
                self.unhighlighted_line_y == old(self).unhighlighted_line_y,
                self.needs_tokenization == old(self).needs_tokenization,
                self.cursor_position_undo_history == old(self).cursor_position_undo_history,
                self.cursor_position_redo_history == old(self).cursor_position_redo_history,
            decreases len - i,
        {
            let cursor = &self.cursors[i];
            proof {
                assert(cs0[i as int] == *cursor);
            }
            let position = shift_delete(start, end, cursor.position, n);
            let selection_anchor = match cursor.selection_anchor {
                Some(anchor) => Some(shift_delete(start, end, anchor, n)),
                None => None,
            };
            let updated = Cursor { position, selection_anchor, desired_visual_x: cursor.desired_visual_x };
            self.set_cursor(i, updated);
            i = i + 1;
        }
        proof {
            assert(self.cursors@ =~= cursors_shifted_by_delete(cs0, start, end));
        }
    }

    /// The index of the main cursor: the last one.
    fn get_main_cursor_index(&self) -> (r: usize)
        requires
            self.wf(),
        ensures
            r == self.cursors_view().len() - 1,
    {
        self.cursors.len() - 1
    }

    /// The index of the cursor that `index` names.
    pub fn unwrap_cursor_index(&self, index: CursorIndex) -> (r: usize)
        requires
            self.wf(),
        ensures
            r == cursor_at(self.cursors_view(), index),
    {
        index.unwrap_or(self.get_main_cursor_index())
    }

    /// Whether `index` names the main cursor.
    pub fn is_cursor_index_main(&self, index: CursorIndex) -> (r: bool)
        requires
            self.wf(),
        ensures
            r == (cursor_at(self.cursors_view(), index) == self.cursors_view().len() - 1),
    {
        match index {
            CursorIndex::Index(index) => index == self.get_main_cursor_index(),
            CursorIndex::Main => true,
        }
    }

    /// The cursor that `index` names.
    pub fn get_cursor(&self, index: CursorIndex) -> (r: &Cursor)
        requires
            self.wf(),
            names_cursor(self.cursors_view(), index),
        ensures
            *r == self.cursors_view()[cursor_at(self.cursors_view(), index)],
    {
        let index = self.unwrap_cursor_index(index);
        &self.cursors[index]
    }

    /// The number of cursors.
    pub fn cursors_len(&self) -> (r: usize)
        ensures
            r == self.cursors_view().len(),
    {
        self.cursors.len()
    }

    /// The indices of all the cursors, from the first to the main one.
    pub fn cursor_indices(&self) -> (r: CursorIndices)
        ensures
            r.front() == 0,
            r.back() == self.cursors_view().len(),
    {
        CursorIndices::new(0, self.cursors.len())
    }

    /// Replaces cursor `i`.
    fn set_cursor(&mut self, i: usize, cursor: Cursor)
        requires
            i < old(self).cursors@.len(),
        ensures
            final(self).cursors@ == old(self).cursors@.update(i as int, cursor),
            final(self).lines == old(self).lines,
            final(self).kind == old(self).kind,
            final(self).usages == old(self).usages,
            final(self).line_ending == old(self).line_ending,
            final(self).syntax_highlighter == old(self).syntax_highlighter,
            final(self).tokenizer == old(self).tokenizer,
            final(self).unhighlighted_line_y == old(self).unhighlighted_line_y,
            final(self).needs_tokenization == old(self).needs_tokenization,
            final(self).cursor_position_undo_history == old(self).cursor_position_undo_history,
            final(self).cursor_position_redo_history == old(self).cursor_position_redo_history,
    {
        self.cursors.set(i, cursor);
    }

    /// Adds a cursor at `position` (kept within the document), which becomes the main one;
    /// `desired_visual_x` is the width of the text before it on its line, as the caller's text
    /// measure gives it. An output document keeps zero there.
    pub fn add_cursor(&mut self, position: Position, desired_visual_x: usize)
        requires
            old(self).wf(),
        ensures
            final(self).wf(),
            same_text(old(self), final(self)),
            same_cursor_history(old(self), final(self)),
            final(self).cursors_view() == old(self).cursors_view().push(Cursor {
                position: clamp(old(self).lines_view(), position),
                selection_anchor: None,
                desired_visual_x: if old(self).kind_view() == DocKind::Output { 0 } else { desired_visual_x },
            }),
    {
        let position = self.clamp_position(position);
        let x = if self.kind == DocKind::Output { 0 } else { desired_visual_x };
        self.cursors.push(Cursor::new(position, x));
    }

    /// Takes out the cursor that `index` names, unless it is the only one.
    pub fn remove_cursor(&mut self, index: CursorIndex)
        requires
            old(self).wf(),
            old(self).cursors_view().len() >= 2 ==> names_cursor(old(self).cursors_view(), index),
        ensures
            final(self).wf(),
            same_text(old(self), final(self)),
            same_cursor_history(old(self), final(self)),
            old(self).cursors_view().len() < 2 ==> final(self).cursors_view() == old(self).cursors_view(),
            old(self).cursors_view().len() >= 2 ==> final(self).cursors_view() == old(self).cursors_view().remove(
                cursor_at(old(self).cursors_view(), index),
            ),
    {
        if self.cursors.len() < 2 {
            return;
        }
        let index = self.unwrap_cursor_index(index);
        self.cursors.remove(index);
    }

    /// Keeps only the cursor that `kept_index` names.
    pub fn clear_extra_cursors(&mut self, kept_index: CursorIndex)
        requires
            old(self).wf(),
            names_cursor(old(self).cursors_view(), kept_index),
        ensures
            final(self).wf(),
            same_text(old(self), final(self)),
            same_cursor_history(old(self), final(self)),
            final(self).cursors_view() == seq![old(self).cursors_view()[cursor_at(old(self).cursors_view(), kept_index)]],
    {
        let kept_index = self.unwrap_cursor_index(kept_index);
        let kept = self.cursors.remove(kept_index);
        self.cursors.clear();
        self.cursors.push(kept);
        proof {
            assert(self.cursors@ =~= seq![old(self).cursors@[kept_index as int]]);
        }
    }

    /// Makes the cursor that `index` names select `selection`, or nothing.
    pub fn set_cursor_selection(&mut self, index: CursorIndex, selection: Option<Selection>)
        requires
            old(self).wf(),
            names_cursor(old(self).cursors_view(), index),
        ensures
            final(self).wf(),
            same_text(old(self), final(self)),
            same_cursor_history(old(self), final(self)),
            final(self).cursors_view() == old(self).cursors_view().update(
                cursor_at(old(self).cursors_view(), index),
                with_selection(old(self).cursors_view()[cursor_at(old(self).cursors_view(), index)], selection),
            ),
    {
        let index = self.unwrap_cursor_index(index);
        let cursor = &self.cursors[index];
        let updated = match selection {
            None => Cursor {
                position: cursor.position,
                selection_anchor: None,
                desired_visual_x: cursor.desired_visual_x,
            },
            Some(selection) => {
                let is_cursor_at_start = match cursor.get_selection() {
                    Some(current_selection) => cursor.position == current_selection.start,
                    None => false,
                };
                if is_cursor_at_start {
                    Cursor {
                        position: selection.start,
                        selection_anchor: Some(selection.end),
                        desired_visual_x: cursor.desired_visual_x,
                    }
                } else {
                    Cursor {
                        position: selection.end,
                        selection_anchor: Some(selection.start),
                        desired_visual_x: cursor.desired_visual_x,
                    }
                }
            },
        };
        self.set_cursor(index, updated);
    }

    /// Anchors a selection at the position of the cursor that `index` names.
    pub fn start_cursor_selection(&mut self, index: CursorIndex)
        requires
            old(self).wf(),
            names_cursor(old(self).cursors_view(), index),
        ensures
            final(self).wf(),
            same_text(old(self), final(self)),
            same_cursor_history(old(self), final(self)),
            ({
                let i = cursor_at(old(self).cursors_view(), index);
                let c = old(self).cursors_view()[i];
                final(self).cursors_view() == old(self).cursors_view().update(i, anchored(c, Some(c.position)))
            }),
    {
        let index = self.unwrap_cursor_index(index);
        let cursor = &self.cursors[index];
        let updated = Cursor {
            position: cursor.position,
            selection_anchor: Some(cursor.position),
            desired_visual_x: cursor.desired_visual_x,
        };
        self.set_cursor(index, updated);
    }

    /// Drops the selection of the cursor that `index` names.
    pub fn end_cursor_selection(&mut self, index: CursorIndex)
        requires
            old(self).wf(),
            names_cursor(old(self).cursors_view(), index),
        ensures
            final(self).wf(),
            same_text(old(self), final(self)),
            same_cursor_history(old(self), final(self)),
            ({
                let i = cursor_at(old(self).cursors_view(), index);
                final(self).cursors_view() == old(self).cursors_view().update(i, anchored(old(self).cursors_view()[i], None))
            }),
    {
        let index = self.unwrap_cursor_index(index);
        let cursor = &self.cursors[index];
        let updated = Cursor {
            position: cursor.position,
            selection_anchor: None,
            desired_visual_x: cursor.desired_visual_x,
        };
        self.set_cursor(index, updated);
    }

    /// Starts a selection at the cursor that `index` names if `should_select` and it has no
    /// anchor, and drops its anchor if not `should_select`.
    pub fn update_cursor_selection(&mut self, index: CursorIndex, should_select: bool)
        requires
            old(self).wf(),
            names_cursor(old(self).cursors_view(), index),
        ensures
            final(self).wf(),
            same_text(old(self), final(self)),
            same_cursor_history(old(self), final(self)),
            final(self).cursors_view() == selection_updated(
                old(self).cursors_view(),
                cursor_at(old(self).cursors_view(), index),
                should_select,
            ),
    {
        let cursor = self.get_cursor(index);
        if should_select && cursor.selection_anchor.is_none() {
            self.start_cursor_selection(index);
        } else if !should_select && cursor.selection_anchor.is_some() {
            self.end_cursor_selection(index);
        }
    }

    /// Whether some cursor selects something.
    pub fn has_selection(&self) -> (r: bool)
        requires
            self.wf(),
        ensures
            r == exists|i: int| 0 <= i < self.cursors_view().len() && (#[trigger] selection_of(self.cursors_view()[i])) is Some,
    {
        let mut indices = self.cursor_indices();
        loop
            invariant
                self.wf(),
                indices.front() <= indices.back(),
                indices.back() == self.cursors_view().len(),
                forall|i: int| 0 <= i < indices.front() ==> (#[trigger] selection_of(self.cursors_view()[i])) is None,
            decreases indices.back() - indices.front(),
        {
            let ghost i = indices.front();
            match indices.next() {
                Some(index) => {
                    if self.get_cursor(index).get_selection().is_some() {
                        assert(selection_of(self.cursors_view()[i as int]) is Some);
                        return true;
                    }
                },
                None => {
                    return false;
                },
            }
        }
    }

    /// Sends the main cursor back to the latest position of its history, keeping where it was
    /// so that it can be sent forward again.
    pub fn undo_cursor_position(&mut self)
        requires
            old(self).wf(),
        ensures
            final(self).wf(),
            same_text(old(self), final(self)),
            cursor_state(final(self)) == cursor_undone(cursor_state(old(self))),
    {
        let position = match self.cursor_position_undo_history.pop() {
            Some(position) => position,
            None => {
                return;
            },
        };
        let main = self.get_main_cursor_index();
        let cursor = &self.cursors[main];
        self.cursor_position_redo_history.push(cursor.position);
        let updated = Cursor {
            position,
            selection_anchor: cursor.selection_anchor,
            desired_visual_x: cursor.desired_visual_x,
        };
        self.set_cursor(main, updated);
    }

    /// Sends the main cursor forward to the latest position it was sent back from, keeping
    /// where it was so that it can be sent back again.
    pub fn redo_cursor_position(&mut self)
        requires
            old(self).wf(),
        ensures
            final(self).wf(),
            same_text(old(self), final(self)),
            cursor_state(final(self)) == cursor_redone(cursor_state(old(self))),
    {
        let position = match self.cursor_position_redo_history.pop() {
            Some(position) => position,
            None => {
                return;
            },
        };
        let main = self.get_main_cursor_index();
        let cursor = &self.cursors[main];
        self.cursor_position_undo_history.push(cursor.position);
        let updated = Cursor {
            position,
            selection_anchor: cursor.selection_anchor,
            desired_visual_x: cursor.desired_visual_x,
        };
        self.set_cursor(main, updated);
    }

    /// The first cursor, other than cursor `i`, that takes in the position of cursor `i`.
    fn find_cover(&self, i: usize) -> (r: Option<usize>)
        requires
            self.wf(),
            i < self.cursors_view().len(),
        ensures
            match r {
                Some(j) => first_cover(self.cursors_view(), i as int, 0) == Some(j as int)
                    && j < self.cursors_view().len() && j != i,
                None => first_cover(self.cursors_view(), i as int, 0) is None,
            },
    {
        let ghost cs = self.cursors_view();
        let position = self.cursors[i].position;
        let len = self.cursors.len();
        let mut j: usize = 0;
        while j < len
            invariant
                cs == self.cursors_view(),
                len == cs.len(),
                i < len,
                j <= len,
                position == cs[i as int].position,
                first_cover(cs, i as int, 0) == first_cover(cs, i as int, j as int),
            decreases len - j,
        {
            if j != i {
                let other = &self.cursors[j];
                let do_remove = match other.get_selection() {
                    Some(selection) => !position.is_before(&selection.start) && !selection.end.is_before(&position),
                    None => position == other.position,
                };
                if do_remove {
                    return Some(j);
                }
            }
            j = j + 1;
        }
        None
    }

    /// Merges, from the main cursor back to the first, each cursor that another takes in
    /// (within its selection, or on it where it selects nothing) into the first such other,
    /// which then selects the union of the two selections.
    pub fn combine_overlapping_cursors(&mut self)
        requires
            old(self).wf(),
        ensures
            final(self).wf(),
            same_text(old(self), final(self)),
            same_cursor_history(old(self), final(self)),
            final(self).cursors_view() == combined_from(old(self).cursors_view(), old(self).cursors_view().len() as int),
    {
        let mut indices = self.cursor_indices();
        loop
            invariant
                self.wf(),
                same_text(old(self), self),
                same_cursor_history(old(self), self),
                indices.front() == 0,
                indices.back() <= self.cursors_view().len(),
                combined_from(old(self).cursors_view(), old(self).cursors_view().len() as int) == combined_from(
                    self.cursors_view(),
                    indices.back() as int,
                ),
            ensures
                self.cursors_view() == combined_from(old(self).cursors_view(), old(self).cursors_view().len() as int),
            decreases indices.back(),
        {
            let ghost cs = self.cursors_view();
            let ghost k = indices.back();
            match indices.next_back() {
                None => {
                    break;
                },
                Some(index) => {
                    let i = self.unwrap_cursor_index(index);
                    let selection = self.cursors[i].get_selection();
                    match self.find_cover(i) {
                        Some(j) => {
                            let other_selection = self.cursors[j].get_selection();
                            self.set_cursor_selection(CursorIndex::Index(j), Selection::union(other_selection, selection));
                            self.remove_cursor(index);
                        },
                        None => {},
                    }
                },
            }
        }
    }

    /// Appends to `text`, for each cursor, the text it selects, or else its whole line and a
    /// line feed, with a line feed after each but the main cursor; says whether no cursor
    /// selected anything.
    pub fn copy_at_cursors(&mut self, text: &mut String) -> (r: bool)
        requires
            old(self).wf(),
            selections_on_chars(old(self).lines_view(), old(self).cursors_view()),
        ensures
            *final(self) == *old(self),
            string_bytes(final(text)) == string_bytes(old(text)) + copied_text(
                old(self).lines_view(),
                old(self).cursors_view(),
                old(self).cursors_view().len() as int,
            ),
            r == forall|i: int| 0 <= i < old(self).cursors_view().len() ==> (#[trigger] selection_of(
                old(self).cursors_view()[i],
            )) is None,
    {
        let ghost ls = self.lines_view();
        let ghost cs = self.cursors_view();
        let ghost t0 = string_bytes(text);
        let mut was_copy_implicit = true;
        let mut indices = self.cursor_indices();
        loop
            invariant
                self.wf(),
                *self == *old(self),
                ls == self.lines_view(),
                cs == self.cursors_view(),
                selections_on_chars(ls, cs),
                t0 == string_bytes(old(text)),
                indices.back() == cs.len(),
                indices.front() <= cs.len(),
                string_bytes(text) == t0 + copied_text(ls, cs, indices.front() as int),
                was_copy_implicit == forall|i: int| 0 <= i < indices.front() ==> (#[trigger] selection_of(cs[i])) is None,
            ensures
                string_bytes(text) == t0 + copied_text(ls, cs, cs.len() as int),
                was_copy_implicit == forall|i: int| 0 <= i < cs.len() ==> (#[trigger] selection_of(cs[i])) is None,
            decreases indices.back() - indices.front(),
        {
            let ghost k = indices.front();
            match indices.next() {
                None => {
                    break;
                },
                Some(index) => {
                    let ghost before = string_bytes(text);
                    let cursor = self.get_cursor(index);
                    match cursor.get_selection() {
                        Some(selection) => {
                            was_copy_implicit = false;
                            proof {
                                assert(selection_of(cs[k as int]) == Some(selection));
                            }
                            self.collect_string(selection.start, selection.end, text);
                        },
                        None => {
                            self.copy_line_at_position(cursor.position, text);
                        },
                    }
                    if self.unwrap_cursor_index(index) != self.cursors_len() - 1 {
                        push_newline(text);
                    }
                    proof {
                        assert(copied_text(ls, cs, k + 1) == copied_text(ls, cs, k as int) + cursor_copy(ls, cs[k as int])
                            + if k != cs.len() - 1 { seq![0x0Au8] } else { Seq::<u8>::empty() });
                        assert(string_bytes(text) =~= t0 + copied_text(ls, cs, k + 1));
                    }
                },
            }
        }
        was_copy_implicit
    }

    /// Appends to `text` the line of `position` (kept within the document) and a line feed.
    pub fn copy_line_at_position(&mut self, position: Position, text: &mut String)
        requires
            old(self).wf(),
        ensures
            *final(self) == *old(self),
            string_bytes(final(text)) == string_bytes(old(text)) + line_copy(old(self).lines_view(), position.y),
    {
        let start = Position::new(0, position.y);
        let end = self.get_line_end(start.y);
        proof {
            let ls = self.lines_view();
            let cs = clamp(ls, start);
            let ce = clamp(ls, end);
            is_char_boundary_start_end_of_seq(ls[cs.y as int]);
            is_char_boundary_start_end_of_seq(ls[ce.y as int]);
        }
        self.collect_string(start, end, text);
        push_newline(text);
    }

    /// Types `text` at the cursor that `index` names: takes out what it selects, where it
    /// selects something, and puts `text` in where it then is.
    pub fn insert_at_cursor(&mut self, index: CursorIndex, text: &str, line_pool: &mut LinePool)
        requires
            old(self).wf(),
            names_cursor(old(self).cursors_view(), index),
            can_type_at(
                old(self).lines_view(),
                old(self).cursors_view(),
                cursor_at(old(self).cursors_view(), index),
                bytes(text).len() as int,
                old(self).kind_view() == DocKind::Output,
            ),
        ensures
            final(self).wf(),
            final(self).kind_view() == old(self).kind_view(),
            final(self).line_ending_view() == old(self).line_ending_view(),
            same_annotations(old(self), final(self)),
            same_cursor_history(old(self), final(self)),
            (final(self).lines_view(), final(self).cursors_view()) == inserted_at_cursor(
                old(self).lines_view(),
                old(self).cursors_view(),
                cursor_at(old(self).cursors_view(), index),
                text@,
                old(self).kind_view() == DocKind::SingleLine,
                old(self).kind_view() == DocKind::Output,
            ),
            ({
                let cs = old(self).cursors_view();
                let k = cursor_at(cs, index);
                let (ls1, cs1) = selection_removed(old(self).lines_view(), cs, k, old(self).kind_view() == DocKind::Output);
                let u1 = match selection_of(cs[k]) {
                    Some(s) => marked_from(old(self).unhighlighted_view(), s.start.y),
                    None => old(self).unhighlighted_view(),
                };
                &&& final(self).unhighlighted_view() == if bytes(text).len() > 0 {
                    marked_from(u1, cs1[k].position.y)
                } else {
                    u1
                }
                &&& final(self).needs_tokenization_view() == (old(self).needs_tokenization_view()
                    || selection_of(cs[k]) is Some || bytes(text).len() > 0)
            }),
    {
        let ghost ls = self.lines_view();
        let ghost cs = self.cursors_view();
        let ghost k = cursor_at(cs, index);
        let ghost output = self.kind == DocKind::Output;
        let ghost single = self.kind == DocKind::SingleLine;
        proof {
            lemma_str_valid(text);
        }
        match self.get_cursor(index).get_selection() {
            Some(selection) => {
                proof {
                    if !output {
                        lemma_fits_less(cs, selection_start_x(cs[k]) + bytes(text).len(), selection.start.x as int);
                        lemma_delete_fits(cs, selection.start, selection.end, bytes(text).len() as int);
                    }
                }
                self.delete(selection.start, selection.end, line_pool);
                self.end_cursor_selection(index);
                proof {
                    if !output {
                        lemma_unanchored_fits(cursors_shifted_by_delete(cs, selection.start, selection.end), k, bytes(text).len() as int);
                    }
                }
            },
            None => {},
        }
        let start = self.get_cursor(index).position;
        self.insert(start, text, line_pool);
    }

    /// Types `text` at each cursor, from the first to the main one.
    pub fn insert_at_cursors(&mut self, text: &str, line_pool: &mut LinePool)
        requires
            old(self).wf(),
            can_type_at_cursors(
                (
                    old(self).lines_view(),
                    old(self).cursors_view(),
                    old(self).unhighlighted_view(),
                    old(self).needs_tokenization_view(),
                ),
                text@,
                old(self).kind_view() == DocKind::SingleLine,
                old(self).kind_view() == DocKind::Output,
                old(self).cursors_view().len() as int,
            ),
        ensures
            final(self).wf(),
            final(self).kind_view() == old(self).kind_view(),
            final(self).line_ending_view() == old(self).line_ending_view(),
            same_annotations(old(self), final(self)),
            same_cursor_history(old(self), final(self)),
            (
                final(self).lines_view(),
                final(self).cursors_view(),
                final(self).unhighlighted_view(),
                final(self).needs_tokenization_view(),
            ) == typed_at_cursors(
                (
                    old(self).lines_view(),
                    old(self).cursors_view(),
                    old(self).unhighlighted_view(),
                    old(self).needs_tokenization_view(),
                ),
                text@,
                old(self).kind_view() == DocKind::SingleLine,
                old(self).kind_view() == DocKind::Output,
                old(self).cursors_view().len() as int,
            ),
    {
        let ghost st0 = (
            self.lines_view(),
            self.cursors_view(),
            self.unhighlighted_view(),
            self.needs_tokenization_view(),
        );
        let ghost single = self.kind == DocKind::SingleLine;
        let ghost output = self.kind == DocKind::Output;
        let ghost n = self.cursors_view().len() as int;
        proof {
            lemma_str_valid(text);
        }
        let mut indices = self.cursor_indices();
        loop
            invariant
                self.wf(),
                self.kind == old(self).kind,
                single == (self.kind == DocKind::SingleLine),
                output == (self.kind == DocKind::Output),
                self.line_ending == old(self).line_ending,
                same_annotations(old(self), self),
                same_cursor_history(old(self), self),
                n == old(self).cursors_view().len(),
                st0 == (
                    old(self).lines_view(),
                    old(self).cursors_view(),
                    old(self).unhighlighted_view(),
                    old(self).needs_tokenization_view(),
                ),
                can_type_at_cursors(st0, text@, single, output, n),
                blen(text@) == bytes(text).len(),
                indices.back() == n,
                indices.front() <= n,
                self.cursors_view().len() == n,
                (
                    self.lines_view(),
                    self.cursors_view(),
                    self.unhighlighted_view(),
                    self.needs_tokenization_view(),
                ) == typed_at_cursors(st0, text@, single, output, indices.front() as int),
            ensures
                (
                    self.lines_view(),
                    self.cursors_view(),
                    self.unhighlighted_view(),
                    self.needs_tokenization_view(),
                ) == typed_at_cursors(st0, text@, single, output, n),
            decreases indices.back() - indices.front(),
        {
            let ghost k = indices.front() as int;
            match indices.next() {
                None => {
                    break;
                },
                Some(index) => {
                    proof {
                        lemma_can_type_prefix(st0, text@, single, output, k, n);
                    }
                    self.insert_at_cursor(index, text, line_pool);
                },
            }
        }
    }

    /// Pastes `text` at the cursor that `index` names: takes out what it selects, where it
    /// selects something, and puts `text` in where the cursor stood; where it selects nothing
    /// and the text was copied from whole lines, at the start of its line.
    pub fn paste_at_cursor(&mut self, index: CursorIndex, text: &str, was_copy_implicit: bool, line_pool: &mut LinePool)
        requires
            old(self).wf(),
            names_cursor(old(self).cursors_view(), index),
            can_paste_at(
                old(self).lines_view(),
                old(self).cursors_view(),
                cursor_at(old(self).cursors_view(), index),
                bytes(text).len() as int,
                was_copy_implicit,
                old(self).kind_view() == DocKind::Output,
            ),
        ensures
            final(self).wf(),
            final(self).kind_view() == old(self).kind_view(),
            final(self).line_ending_view() == old(self).line_ending_view(),
            same_annotations(old(self), final(self)),
            same_cursor_history(old(self), final(self)),
            (final(self).lines_view(), final(self).cursors_view()) == pasted_at_cursor(
                old(self).lines_view(),
                old(self).cursors_view(),
                cursor_at(old(self).cursors_view(), index),
                text@,
                was_copy_implicit,
                old(self).kind_view() == DocKind::SingleLine,
                old(self).kind_view() == DocKind::Output,
            ),
            ({
                let cs = old(self).cursors_view();
                let k = cursor_at(cs, index);
                let u1 = match selection_of(cs[k]) {
                    Some(s) => marked_from(old(self).unhighlighted_view(), s.start.y),
                    None => old(self).unhighlighted_view(),
                };
                &&& final(self).unhighlighted_view() == if bytes(text).len() > 0 {
                    marked_from(u1, paste_point(cs[k], was_copy_implicit).y)
                } else {
                    u1
                }
                &&& final(self).needs_tokenization_view() == (old(self).needs_tokenization_view()
                    || selection_of(cs[k]) is Some || bytes(text).len() > 0)
            }),
    {
        let ghost cs = self.cursors_view();
        let ghost k = cursor_at(cs, index);
        let ghost output = self.kind == DocKind::Output;
        proof {
            lemma_str_valid(text);
        }
        let mut start = self.get_cursor(index).position;
        match self.get_cursor(index).get_selection() {
            Some(selection) => {
                proof {
                    if !output {
                        lemma_fits_less(cs, selection_start_x(cs[k]) + bytes(text).len(), selection.start.x as int);
                        lemma_delete_fits(cs, selection.start, selection.end, bytes(text).len() as int);
                    }
                }
                self.delete(selection.start, selection.end, line_pool);
                self.end_cursor_selection(index);
                proof {
                    if !output {
                        lemma_unanchored_fits(cursors_shifted_by_delete(cs, selection.start, selection.end), k, bytes(text).len() as int);
                    }
                }
            },
            None => {
                if was_copy_implicit {
                    start.x = 0;
                }
            },
        }
        self.insert(start, text, line_pool);
    }

    /// Pastes `lines_per_cursor` lines of `text` at each cursor, from the first to the main
    /// one, grapheme by grapheme; the line feed that ends a cursor's last line is left out.
    fn paste_spread_at_cursors(
        &mut self,
        text: &str,
        was_copy_implicit: bool,
        lines_per_cursor: usize,
        line_pool: &mut LinePool,
    )
        requires
            old(self).wf(),
            paste_spread(
                edit_state(old(self)),
                text@,
                0,
                0,
                old(self).cursors_view().len() as int,
                lines_per_cursor as int,
                was_copy_implicit,
                old(self).kind_view() == DocKind::SingleLine,
                old(self).kind_view() == DocKind::Output,
            ).1,
        ensures
            final(self).wf(),
            same_frame(old(self), final(self)),
            edit_state(final(self)) == paste_spread(
                edit_state(old(self)),
                text@,
                0,
                0,
                old(self).cursors_view().len() as int,
                lines_per_cursor as int,
                was_copy_implicit,
                old(self).kind_view() == DocKind::SingleLine,
                old(self).kind_view() == DocKind::Output,
            ).0,
    {
        let ghost t = text@;
        let ghost single = self.kind == DocKind::SingleLine;
        let ghost output = self.kind == DocKind::Output;
        let n_cursors = self.cursors_len();
        let ghost n = n_cursors as int;
        let ghost lpc = lines_per_cursor as int;
        let ghost target = paste_spread(edit_state(self), t, 0, 0, n, lpc, was_copy_implicit, single, output).0;
        proof {
            lemma_str_valid(text);
        }
        let text_len = str_len(text);
        let mut graphemes = GraphemeCursor::new(0, text_len);
        let mut indices = self.cursor_indices();
        loop
            invariant
                self.wf(),
                same_frame(old(self), self),
                t == text@,
                single == (self.kind == DocKind::SingleLine),
                output == (self.kind == DocKind::Output),
                lpc == lines_per_cursor,
                text_len == bytes(text).len(),
                graphemes.spec_len() == text_len,
                graphemes.spec_index() <= text_len,
                boundary(bytes(text), graphemes.spec_index() as int),
                n == n_cursors,
                indices.back() == n,
                indices.front() <= n,
                self.cursors_view().len() == n,
                ({
                    let r = paste_spread(edit_state(self), t, graphemes.spec_index(), indices.front() as int, n, lpc, was_copy_implicit, single, output);
                    r.0 == target && r.1
                }),
            ensures
                self.wf(),
                same_frame(old(self), self),
                edit_state(self) == target,
            decreases indices.back() - indices.front(),
        {
            let ghost k = indices.front() as int;
            match indices.next() {
                None => {
                    break;
                },
                Some(index) => {
                    let mut line_i: usize = 0;
                    while line_i < lines_per_cursor
                        invariant
                            self.wf(),
                            same_frame(old(self), self),
                            t == text@,
                            single == (self.kind == DocKind::SingleLine),
                            output == (self.kind == DocKind::Output),
                            lpc == lines_per_cursor,
                            text_len == bytes(text).len(),
                            graphemes.spec_len() == text_len,
                            graphemes.spec_index() <= text_len,
                            boundary(bytes(text), graphemes.spec_index() as int),
                            index == CursorIndex::Index(k as usize),
                            0 <= k < n,
                            n == n_cursors,
                            indices.back() == n,
                            indices.front() == k + 1,
                            self.cursors_view().len() == n,
                            line_i <= lines_per_cursor,
                            ({
                                let first = paste_lines(edit_state(self), t, graphemes.spec_index(), k, line_i as int, lpc, was_copy_implicit, single, output);
                                let rest = paste_spread(first.0, t, first.1, k + 1, n, lpc, was_copy_implicit, single, output);
                                rest.0 == target && first.2 && rest.1
                            }),
                        decreases lines_per_cursor - line_i,
                    {
                        loop
                            invariant_except_break
                                ({
                                    let a = paste_line_from(edit_state(self), t, graphemes.spec_index(), k, line_i as int, lpc, was_copy_implicit, single, output);
                                    let b = paste_lines(a.0, t, a.1, k, line_i + 1, lpc, was_copy_implicit, single, output);
                                    let c = paste_spread(b.0, t, b.1, k + 1, n, lpc, was_copy_implicit, single, output);
                                    c.0 == target && a.2 && b.2 && c.1
                                }),
                            invariant
                                self.wf(),
                                same_frame(old(self), self),
                                t == text@,
                                single == (self.kind == DocKind::SingleLine),
                                output == (self.kind == DocKind::Output),
                                lpc == lines_per_cursor,
                                text_len == bytes(text).len(),
                                graphemes.spec_len() == text_len,
                                graphemes.spec_index() <= text_len,
                                boundary(bytes(text), graphemes.spec_index() as int),
                                index == CursorIndex::Index(k as usize),
                                0 <= k < n,
                                n == n_cursors,
                                self.cursors_view().len() == n,
                                line_i < lines_per_cursor,
                            ensures
                                self.wf(),
                                same_frame(old(self), self),
                                text_len == bytes(text).len(),
                                graphemes.spec_len() == text_len,
                                graphemes.spec_index() <= text_len,
                                boundary(bytes(text), graphemes.spec_index() as int),
                                self.cursors_view().len() == n,
                                ({
                                    let b = paste_lines(edit_state(self), t, graphemes.spec_index(), k, line_i + 1, lpc, was_copy_implicit, single, output);
                                    let c = paste_spread(b.0, t, b.1, k + 1, n, lpc, was_copy_implicit, single, output);
                                    c.0 == target && b.2 && c.1
                                }),
                            decreases text_len - graphemes.spec_index(),
                        {
                            if graphemes.index() >= text_len {
                                break;
                            }
                            let i = graphemes.index();
                            let ghost st = edit_state(self);
                            let grapheme = at(i, text);
                            graphemes.next_boundary(text);
                            proof {
                                lemma_str_valid(grapheme);
                                assert(bytes(text) == encode_utf8(t));
                                assert(grapheme@ == piece(t, i));
                                assert(blen(grapheme@) == bytes(grapheme).len());
                                assert(can_step(t, i));

                            }
                            if super::grapheme::is_single_byte(grapheme, 0x0A) {
                                if line_i < lines_per_cursor - 1 {
                                    self.paste_at_cursor(index, grapheme, was_copy_implicit, line_pool);
                                }
                                break;
                            }
                            self.paste_at_cursor(index, grapheme, was_copy_implicit, line_pool);
                        }
                        line_i = line_i + 1;
                    }
                },
            }
        }
    }

    /// Pastes `text` at the cursors, from the first to the main one: where there are several
    /// and the lines of `text` share out evenly among them, each cursor gets its share of the
    /// lines; otherwise each gets all of `text`.
    pub fn paste_at_cursors(&mut self, text: &str, was_copy_implicit: bool, line_pool: &mut LinePool)
        requires
            old(self).wf(),
            bytes(text).len() < usize::MAX,
            pasted_everywhere(
                edit_state(old(self)),
                text@,
                was_copy_implicit,
                old(self).kind_view() == DocKind::SingleLine,
                old(self).kind_view() == DocKind::Output,
                old(self).cursors_view().len() as int,
            ).1,
        ensures
            final(self).wf(),
            same_frame(old(self), final(self)),
            edit_state(final(self)) == pasted_everywhere(
                edit_state(old(self)),
                text@,
                was_copy_implicit,
                old(self).kind_view() == DocKind::SingleLine,
                old(self).kind_view() == DocKind::Output,
                old(self).cursors_view().len() as int,
            ).0,
    {
        let ghost st0 = edit_state(self);
        let ghost single = self.kind == DocKind::SingleLine;
        let ghost output = self.kind == DocKind::Output;
        let ghost n0 = self.cursors_view().len() as int;
        proof {
            lemma_str_valid(text);
        }
        let b = text.as_bytes();
        let text_len = b.len();
        let mut line_count: usize = 1;
        let mut j: usize = 0;
        while j < text_len
            invariant
                b@ == bytes(text),
                text_len == b@.len(),
                text_len < usize::MAX,
                j <= text_len,
                line_count == line_feeds(b@, j as int) + 1,
                line_feeds(b@, j as int) <= j,
            decreases text_len - j,
        {
            if b[j] == 0x0A {
                line_count = line_count + 1;
            }
            j = j + 1;
        }
        proof {
            assert(encode_utf8(text@) == b@);
        }
        let n = self.cursors_len();
        if n > 1 && line_count % n == 0 {
            let lines_per_cursor = line_count / n;
            self.paste_spread_at_cursors(text, was_copy_implicit, lines_per_cursor, line_pool);
            return;
        }
        let mut indices = self.cursor_indices();
        loop
            invariant
                self.wf(),
                same_frame(old(self), self),
                single == (self.kind == DocKind::SingleLine),
                output == (self.kind == DocKind::Output),
                st0 == edit_state(old(self)),
                n0 == old(self).cursors_view().len(),
                pasted_at_cursors(st0, text@, was_copy_implicit, single, output, n0).1,
                blen(text@) == bytes(text).len(),
                indices.back() == n0,
                indices.front() <= n0,
                self.cursors_view().len() == n0,
                edit_state(self) == pasted_at_cursors(st0, text@, was_copy_implicit, single, output, indices.front() as int).0,
            ensures
                edit_state(self) == pasted_at_cursors(st0, text@, was_copy_implicit, single, output, n0).0,
            decreases indices.back() - indices.front(),
        {
            let ghost k = indices.front() as int;
            match indices.next() {
                None => {
                    break;
                },
                Some(index) => {
                    proof {
                        lemma_can_paste_prefix(st0, text@, was_copy_implicit, single, output, k, n0);
                    }
                    self.paste_at_cursor(index, text, was_copy_implicit, line_pool);
                },
            }
        }
    }

    /// Makes each cursor select its line with the line break.
    pub fn select_current_line_at_cursors(&mut self)
        requires
            old(self).wf(),
        ensures
            final(self).wf(),
            same_text(old(self), final(self)),
            same_cursor_history(old(self), final(self)),
            final(self).cursors_view() == lines_selected(old(self).lines_view(), old(self).line_chars(), old(self).cursors_view()),
    {
        let ghost cs0 = self.cursors_view();
        let len = self.cursors.len();
        let mut i: usize = 0;
        while i < len
            invariant
                self.wf(),
                same_text(old(self), self),
                same_cursor_history(old(self), self),
                cs0 == old(self).cursors_view(),
                len == cs0.len(),
                len == self.cursors_view().len(),
                i <= len,
                forall|k: int| 0 <= k < i ==> self.cursors_view()[k] == lines_selected(
                    old(self).lines_view(),
                    old(self).line_chars(),
                    cs0,
                )[k],
                forall|k: int| i <= k < len ==> self.cursors_view()[k] == cs0[k],
            decreases len - i,
        {
            let cursor = &self.cursors[i];
            let selection = self.select_current_line_at_position(cursor.position);
            let updated = Cursor {
                position: selection.end,
                selection_anchor: Some(selection.start),
                desired_visual_x: cursor.desired_visual_x,
            };
            self.set_cursor(i, updated);
            i = i + 1;
        }
        proof {
            assert(self.cursors_view() =~= lines_selected(old(self).lines_view(), old(self).line_chars(), cs0));
        }
    }

    /// Makes each cursor select the word it is on.
    pub fn select_current_word_at_cursors(&mut self)
        requires
            old(self).wf(),
            forall|k: int| 0 <= k < old(self).cursors_view().len() ==> on_char(
                old(self).lines_view(),
                clamp(old(self).lines_view(), (#[trigger] old(self).cursors_view()[k]).position),
            ),
        ensures
            final(self).wf(),
            same_text(old(self), final(self)),
            same_cursor_history(old(self), final(self)),
            final(self).cursors_view() == words_selected(old(self).lines_view(), old(self).line_chars(), old(self).cursors_view()),
    {
        let ghost cs0 = self.cursors_view();
        let len = self.cursors.len();
        let mut i: usize = 0;
        while i < len
            invariant
                self.wf(),
                same_text(old(self), self),
                same_cursor_history(old(self), self),
                cs0 == old(self).cursors_view(),
                len == cs0.len(),
                len == self.cursors_view().len(),
                i <= len,
                forall|k: int| 0 <= k < len ==> on_char(
                    old(self).lines_view(),
                    clamp(old(self).lines_view(), (#[trigger] cs0[k]).position),
                ),
                forall|k: int| 0 <= k < i ==> self.cursors_view()[k] == words_selected(
                    old(self).lines_view(),
                    old(self).line_chars(),
                    cs0,
                )[k],
                forall|k: int| i <= k < len ==> self.cursors_view()[k] == cs0[k],
            decreases len - i,
        {
            let cursor = &self.cursors[i];
            proof {
                assert(cs0[i as int] == *cursor);
            }
            let selection = self.select_current_word_at_position(cursor.position);
            let updated = Cursor {
                position: selection.end,
                selection_anchor: Some(selection.start),
                desired_visual_x: cursor.desired_visual_x,
            };
            self.set_cursor(i, updated);
            i = i + 1;
        }
        proof {
            assert(self.cursors_view() =~= words_selected(old(self).lines_view(), old(self).line_chars(), cs0));
        }
    }

    /// The identifier that ends at the main cursor, as far as it goes back along its line; none
    /// at the start of a line, past the last line, or where the identifier would be empty and
    /// does not follow a '.' or a ':'.
    pub fn get_completion_prefix(&self) -> (r: Option<&str>)
        requires
            self.wf(),
            self.cursors_view().last().position.y < self.lines_view().len() ==> on_char(
                self.lines_view(),
                self.cursors_view().last().position,
            ),
        ensures
            ({
                let ls = self.lines_view();
                let e = self.cursors_view().last().position;
                if e.x == 0 || e.y >= ls.len() {
                    r is None
                } else {
                    match completion_start(ls, self.line_chars(), e, e, e.x as nat) {
                        None => r is None,
                        Some(s) => r matches Some(t) && s.y == e.y && s.x <= e.x && bytes(t) == ls[e.y as int].subrange(
                            s.x as int,
                            e.x as int,
                        ),
                    }
                }
            }),
    {
        let ghost ls = self.lines_view();
        let ghost lc = self.line_chars();
        let prefix_end = self.get_cursor(CursorIndex::Main).position;
        if prefix_end.x == 0 {
            return None;
        }
        if prefix_end.y >= self.lines.len() {
            return None;
        }
        let mut prefix_start = prefix_end;
        let ghost mut fuel: nat = prefix_end.x as nat;
        while prefix_start.x > 0
            invariant_except_break
                completion_start(ls, lc, prefix_end, prefix_end, prefix_end.x as nat) == completion_start(
                    ls,
                    lc,
                    prefix_start,
                    prefix_end,
                    fuel,
                ),
            invariant
                self.wf(),
                ls == self.lines_view(),
                lc == self.line_chars(),
                on_char(ls, prefix_start),
                on_char(ls, prefix_end),
                prefix_end == self.cursors_view().last().position,
                prefix_start.y == prefix_end.y,
                prefix_start.x <= prefix_end.x,
                prefix_start.x <= fuel,
            ensures
                on_char(ls, prefix_start),
                prefix_start.y == prefix_end.y,
                prefix_start.x <= prefix_end.x,
                completion_start(ls, lc, prefix_end, prefix_end, prefix_end.x as nat) == Some(prefix_start),
            decreases prefix_start.x,
        {
            let mut next_start = prefix_start;
            self.move_position_to_previous_grapheme(&mut next_start);
            let grapheme = self.get_grapheme(next_start);
            proof {
                assert(grapheme@ == decode_utf8(bytes(grapheme)));
                assert(clamp(ls, next_start) == next_start);
            }
            if is_alphanumeric(grapheme) || is_single_byte(grapheme, 0x5F) {
                prefix_start = next_start;
                proof {
                    fuel = (fuel - 1) as nat;
                }
                continue;
            }
            if !is_single_byte(grapheme, 0x2E) && !is_single_byte(grapheme, 0x3A) && prefix_start == prefix_end {
                return None;
            }
            break;
        }
        match self.get_line(prefix_end.y) {
            Some(line) => {
                proof {
                    lemma_str_valid(line);
                }
                Some(sub_str(line, prefix_start.x, prefix_end.x))
            },
            None => None,
        }
    }

    /// Toggles the comment `comment` at the cursor that `index` names: takes it out of the
    /// lines it works on that are commented with it, and where there were none, puts it in at
    /// the least line start of those that are not blank.
    fn toggle_comment_at_cursor(&mut self, index: CursorIndex, comment: &str, line_pool: &mut LinePool)
        requires
            old(self).wf(),
            names_cursor(old(self).cursors_view(), index),
            toggled_at_cursor(
                edit_state(old(self)),
                comment@,
                cursor_at(old(self).cursors_view(), index),
                old(self).kind_view() == DocKind::SingleLine,
                old(self).kind_view() == DocKind::Output,
            ).1,
        ensures
            final(self).wf(),
            same_frame(old(self), final(self)),
            final(self).cursors_view().len() == old(self).cursors_view().len(),
            edit_state(final(self)) == toggled_at_cursor(
                edit_state(old(self)),
                comment@,
                cursor_at(old(self).cursors_view(), index),
                old(self).kind_view() == DocKind::SingleLine,
                old(self).kind_view() == DocKind::Output,
            ).0,
    {
        let ghost st0 = edit_state(self);
        let ghost c = comment@;
        let ghost single = self.kind == DocKind::SingleLine;
        let ghost output = self.kind == DocKind::Output;
        let ghost n = self.cursors_view().len();
        proof {
            lemma_str_valid(comment);
        }
        let cursor = self.get_cursor(index);
        let whole = match cursor.get_selection() {
            Some(selection) => selection,
            None => Selection { start: cursor.position, end: cursor.position },
        };
        let selection = whole.trim();
        let first = selection.start.y;
        let last = selection.end.y;
        let ghost un = uncomment_pass(st0, c, first as int, last as int, usize::MAX as int, false, output);
        let mut min_comment_x: usize = usize::MAX;
        let mut did_uncomment = false;
        let mut y = first;
        let mut done = first > last;
        while !done
            invariant
                self.wf(),
                same_frame(old(self), self),
                self.cursors_view().len() == n,
                c == comment@,
                blen(c) == bytes(comment).len(),
                single == (self.kind == DocKind::SingleLine),
                output == (self.kind == DocKind::Output),
                !done ==> first <= y <= last,
                ({
                    let rem = uncomment_pass(
                        edit_state(self),
                        c,
                        if done { last + 1 } else { y as int },
                        last as int,
                        min_comment_x as int,
                        did_uncomment,
                        output,
                    );
                    rem.0 == un.0 && rem.1 == un.1 && rem.2 == un.2 && rem.3
                }),
            decreases if done { 0 } else { last - y + 1 },
        {
            proof {
                self.lemma_chars_of_view();
            }
            if !self.is_line_whitespace(y) {
                let start = self.get_line_start(y);
                if start < min_comment_x {
                    min_comment_x = start;
                }
                let did = self.uncomment_line(comment, y, line_pool);
                did_uncomment = did || did_uncomment;
                proof {
                    self.lemma_chars_of_view();
                }
            }
            if y == last {
                done = true;
            } else {
                y = y + 1;
            }
        }
        if did_uncomment {
            return;
        }
        let ghost co = comment_pass(un.0, c, first as int, last as int, un.1 as usize, single, output);
        let mut y = first;
        let mut done = first > last;
        while !done
            invariant
                self.wf(),
                same_frame(old(self), self),
                self.cursors_view().len() == n,
                c == comment@,
                blen(c) == bytes(comment).len(),
                single == (self.kind == DocKind::SingleLine),
                output == (self.kind == DocKind::Output),
                min_comment_x == un.1,
                !done ==> first <= y <= last,
                ({
                    let rem = comment_pass(
                        edit_state(self),
                        c,
                        if done { last + 1 } else { y as int },
                        last as int,
                        min_comment_x,
                        single,
                        output,
                    );
                    rem.0 == co.0 && rem.1
                }),
            decreases if done { 0 } else { last - y + 1 },
        {
            proof {
                self.lemma_chars_of_view();
            }
            if !self.is_line_whitespace(y) {
                self.comment_line(comment, Position::new(min_comment_x, y), line_pool);
            }
            if y == last {
                done = true;
            } else {
                y = y + 1;
            }
        }
    }

    /// Toggles the line comment `comment` (that of the document's language, where the caller
    /// found one) at each cursor, from the first to the main one.
    pub fn toggle_comments_at_cursors(&mut self, comment: Option<&str>, line_pool: &mut LinePool)
        requires
            old(self).wf(),
            comment matches Some(c) ==> toggled_at_cursors(
                edit_state(old(self)),
                c@,
                old(self).kind_view() == DocKind::SingleLine,
                old(self).kind_view() == DocKind::Output,
                old(self).cursors_view().len() as int,
            ).1,
        ensures
            final(self).wf(),
            same_frame(old(self), final(self)),
            comment is None ==> edit_state(final(self)) == edit_state(old(self)),
            comment matches Some(c) ==> edit_state(final(self)) == toggled_at_cursors(
                edit_state(old(self)),
                c@,
                old(self).kind_view() == DocKind::SingleLine,
                old(self).kind_view() == DocKind::Output,
                old(self).cursors_view().len() as int,
            ).0,
    {
        let comment = match comment {
            Some(comment) => comment,
            None => {
                return;
            },
        };
        let ghost st0 = edit_state(self);
        let ghost single = self.kind == DocKind::SingleLine;
        let ghost output = self.kind == DocKind::Output;
        let ghost n = self.cursors_view().len() as int;
        let mut indices = self.cursor_indices();
        loop
            invariant
                self.wf(),
                same_frame(old(self), self),
                single == (self.kind == DocKind::SingleLine),
                output == (self.kind == DocKind::Output),
                st0 == edit_state(old(self)),
                n == old(self).cursors_view().len(),
                toggled_at_cursors(st0, comment@, single, output, n).1,
                indices.back() == n,
                indices.front() <= n,
                self.cursors_view().len() == n,
                edit_state(self) == toggled_at_cursors(st0, comment@, single, output, indices.front() as int).0,
            ensures
                edit_state(self) == toggled_at_cursors(st0, comment@, single, output, n).0,
            decreases indices.back() - indices.front(),
        {
            let ghost k = indices.front() as int;
            match indices.next() {
                None => {
                    break;
                },
                Some(index) => {
                    proof {
                        lemma_can_toggle_prefix(st0, comment@, single, output, k, n);
                    }
                    self.toggle_comment_at_cursor(index, comment, line_pool);
                },
            }
        }
    }

    /// Keeps `last_position` in the main cursor's history where the cursor that `index` names
    /// is the main one and moved from there by at least the threshold of lines.
    fn update_cursor_position_history(&mut self, index: CursorIndex, last_position: Position)
        requires
            old(self).wf(),
            names_cursor(old(self).cursors_view(), index),
        ensures
            final(self).wf(),
            same_text(old(self), final(self)),
            final(self).cursors_view() == old(self).cursors_view(),
            (final(self).cursor_undo_view(), final(self).cursor_redo_view()) == history_after_move(
                old(self).cursor_undo_view(),
                old(self).cursor_redo_view(),
                old(self).cursors_view(),
                cursor_at(old(self).cursors_view(), index),
                last_position,
            ),
    {
        if !self.is_cursor_index_main(index) {
            return;
        }
        let y = self.get_cursor(index).position.y;
        let distance = if y >= last_position.y { y - last_position.y } else { last_position.y - y };
        if distance < CURSOR_POSITION_HISTORY_THRESHOLD {
            return;
        }
        self.cursor_position_redo_history.clear();
        self.cursor_position_undo_history.push(last_position);
        proof {
            assert(self.cursor_redo_view() =~= Seq::<Position>::empty());
        }
    }

    /// Moves the cursor that `index` names to `position` (kept within the document), starting
    /// or dropping its selection as `should_select` says; where it is the main cursor and moves
    /// far, its history keeps where it was. Its desired visual x is kept: measuring text is the
    /// graphics layer's.
    pub fn jump_cursor(&mut self, index: CursorIndex, position: Position, should_select: bool)
        requires
            old(self).wf(),
            names_cursor(old(self).cursors_view(), index),
        ensures
            final(self).wf(),
            same_text(old(self), final(self)),
            cursor_state(final(self)) == jumped(
                old(self).lines_view(),
                cursor_state(old(self)),
                cursor_at(old(self).cursors_view(), index),
                position,
                should_select,
            ),
    {
        self.update_cursor_selection(index, should_select);
        let i = self.unwrap_cursor_index(index);
        let last_position = self.cursors[i].position;
        let position = self.clamp_position(position);
        let cursor = &self.cursors[i];
        let updated = Cursor {
            position,
            selection_anchor: cursor.selection_anchor,
            desired_visual_x: cursor.desired_visual_x,
        };
        self.set_cursor(i, updated);
        self.update_cursor_position_history(index, last_position);
    }

    /// Keeps only the main cursor and moves it to `position`, as `jump_cursor` does.
    pub fn jump_cursors(&mut self, position: Position, should_select: bool)
        requires
            old(self).wf(),
        ensures
            final(self).wf(),
            same_text(old(self), final(self)),
            cursor_state(final(self)) == jumped(
                old(self).lines_view(),
                (seq![old(self).cursors_view().last()], old(self).cursor_undo_view(), old(self).cursor_redo_view()),
                0,
                position,
                should_select,
            ),
    {
        self.clear_extra_cursors(CursorIndex::Main);
        self.jump_cursor(CursorIndex::Main, position, should_select);
    }

    /// Moves the cursor that `index` names to the next word in the direction of `delta_x`, as
    /// `jump_cursor` does.
    pub fn move_cursor_to_next_word(&mut self, index: CursorIndex, delta_x: isize, should_select: bool)
        requires
            old(self).wf(),
            names_cursor(old(self).cursors_view(), index),
            delta_x != isize::MIN,
            on_char(
                old(self).lines_view(),
                clamp(old(self).lines_view(), old(self).cursors_view()[cursor_at(old(self).cursors_view(), index)].position),
            ),
        ensures
            final(self).wf(),
            same_text(old(self), final(self)),
            cursor_state(final(self)) == jumped(
                old(self).lines_view(),
                cursor_state(old(self)),
                cursor_at(old(self).cursors_view(), index),
                next_word(
                    old(self).lines_view(),
                    old(self).line_chars(),
                    old(self).cursors_view()[cursor_at(old(self).cursors_view(), index)].position,
                    delta_x as int,
                ),
                should_select,
            ),
    {
        let position = self.get_cursor(index).position;
        let destination = self.move_position_to_next_word(position, delta_x);
        self.jump_cursor(index, destination, should_select);
    }

    /// Moves each cursor to the next word in the direction of `delta_x`, from the first to the
    /// main one.
    pub fn move_cursors_to_next_word(&mut self, delta_x: isize, should_select: bool)
        requires
            old(self).wf(),
            delta_x != isize::MIN,
            forall|k: int| 0 <= k < old(self).cursors_view().len() ==> on_char(
                old(self).lines_view(),
                clamp(old(self).lines_view(), (#[trigger] old(self).cursors_view()[k]).position),
            ),
        ensures
            final(self).wf(),
            same_text(old(self), final(self)),
            cursor_state(final(self)) == all_jumped(
                old(self).lines_view(),
                cursor_state(old(self)),
                |p: Position| next_word(old(self).lines_view(), old(self).line_chars(), p, delta_x as int),
                should_select,
                old(self).cursors_view().len() as int,
            ),
    {
        let ghost ls = self.lines_view();
        let ghost f = |p: Position| next_word(old(self).lines_view(), old(self).line_chars(), p, delta_x as int);
        let ghost st0 = cursor_state(self);
        let ghost n = self.cursors_view().len() as int;
        let mut indices = self.cursor_indices();
        loop
            invariant
                self.wf(),
                same_text(old(self), self),
                ls == old(self).lines_view(),
                f == (|p: Position| next_word(old(self).lines_view(), old(self).line_chars(), p, delta_x as int)),
                st0 == cursor_state(old(self)),
                delta_x != isize::MIN,
                n == old(self).cursors_view().len(),
                indices.back() == n,
                indices.front() <= n,
                self.cursors_view().len() == n,
                forall|k: int| indices.front() <= k < n ==> (#[trigger] self.cursors_view()[k]).position
                    == old(self).cursors_view()[k].position,
                forall|k: int| 0 <= k < n ==> on_char(ls, clamp(ls, (#[trigger] old(self).cursors_view()[k]).position)),
                cursor_state(self) == all_jumped(ls, st0, f, should_select, indices.front() as int),
            ensures
                cursor_state(self) == all_jumped(ls, st0, f, should_select, n),
            decreases indices.back() - indices.front(),
        {
            let ghost k = indices.front() as int;
            match indices.next() {
                None => {
                    break;
                },
                Some(index) => {
                    proof {
                        assert(self.cursors_view()[k].position == old(self).cursors_view()[k].position);
                    }
                    self.move_cursor_to_next_word(index, delta_x, should_select);
                },
            }
        }
    }

    /// Moves the cursor that `index` names to the next paragraph in the direction of
    /// `delta_y`, as `jump_cursor` does.
    pub fn move_cursor_to_next_paragraph(&mut self, index: CursorIndex, delta_y: isize, should_select: bool)
        requires
            old(self).wf(),
            names_cursor(old(self).cursors_view(), index),
            delta_y > 0 ==> old(self).lines_view().len() - 1 + delta_y <= usize::MAX,
        ensures
            final(self).wf(),
            same_text(old(self), final(self)),
            cursor_state(final(self)) == jumped(
                old(self).lines_view(),
                cursor_state(old(self)),
                cursor_at(old(self).cursors_view(), index),
                next_paragraph(
                    old(self).lines_view(),
                    old(self).cursors_view()[cursor_at(old(self).cursors_view(), index)].position,
                    delta_y as int,
                    true,
                ),
                should_select,
            ),
    {
        let position = self.get_cursor(index).position;
        let destination = self.move_position_to_next_paragraph(position, delta_y, true);
        self.jump_cursor(index, destination, should_select);
    }

    /// Moves each cursor to the next paragraph in the direction of `delta_y`, from the first
    /// to the main one.
    #[verifier::rlimit(30)]
    pub fn move_cursors_to_next_paragraph(&mut self, delta_y: isize, should_select: bool)
        requires
            old(self).wf(),
            delta_y > 0 ==> old(self).lines_view().len() - 1 + delta_y <= usize::MAX,
        ensures
            final(self).wf(),
            same_text(old(self), final(self)),
            cursor_state(final(self)) == all_jumped(
                old(self).lines_view(),
                cursor_state(old(self)),
                |p: Position| next_paragraph(old(self).lines_view(), p, delta_y as int, true),
                should_select,
                old(self).cursors_view().len() as int,
            ),
    {
        let ghost ls = self.lines_view();
        let ghost f = |p: Position| next_paragraph(old(self).lines_view(), p, delta_y as int, true);
        let ghost st0 = cursor_state(self);
        let ghost n = self.cursors_view().len() as int;
        let mut indices = self.cursor_indices();
        loop
            invariant
                self.wf(),
                same_text(old(self), self),
                ls == old(self).lines_view(),
                f == (|p: Position| next_paragraph(old(self).lines_view(), p, delta_y as int, true)),
                st0 == cursor_state(old(self)),
                delta_y > 0 ==> ls.len() - 1 + delta_y <= usize::MAX,
                n == old(self).cursors_view().len(),
                indices.back() == n,
                indices.front() <= n,
                self.cursors_view().len() == n,
                cursor_state(self) == all_jumped(ls, st0, f, should_select, indices.front() as int),
            ensures
                cursor_state(self) == all_jumped(ls, st0, f, should_select, n),
            decreases indices.back() - indices.front(),
        {
            match indices.next() {
                None => {
                    break;
                },
                Some(index) => {
                    self.move_cursor_to_next_paragraph(index, delta_y, should_select);
                },
            }
        }
    }

    /// Where the main cursor selects nothing, makes each cursor select its word. Where it
    /// selects text on one line, adds a cursor at the next occurrence of that text (searching
    /// forward and going round), which becomes the main cursor and selects as many graphemes
    /// as the text has bytes; the added cursor's desired visual x is zero.
    pub fn add_cursor_at_next_occurance(&mut self)
        requires
            old(self).wf(),
            ({
                let ls = old(self).lines_view();
                let cs = old(self).cursors_view();
                let c = cs.last();
                match selection_of(c) {
                    None => forall|k: int| 0 <= k < cs.len() ==> on_char(ls, clamp(ls, (#[trigger] cs[k]).position)),
                    Some(s) => s.start.y == s.end.y && c.position.y < ls.len() ==> {
                        &&& on_char(ls, s.start)
                        &&& on_char(ls, s.end)
                        &&& s.end.x - s.start.x <= isize::MAX
                        &&& !(search_forward_from(ls, selected_text(ls, s), clamp(ls, c.position), true) is BeforeLineStart)
                        &&& next_occurrence(ls, c, s) matches Some(p) ==> on_char(ls, clamp(ls, p))
                    },
                }
            }),
        ensures
            final(self).wf(),
            same_text(old(self), final(self)),
            ({
                let ls = old(self).lines_view();
                let cs = old(self).cursors_view();
                let c = cs.last();
                match selection_of(c) {
                    None => final(self).cursors_view() == words_selected(ls, old(self).line_chars(), cs)
                        && same_cursor_history(old(self), final(self)),
                    Some(s) => if s.start.y != s.end.y || c.position.y >= ls.len() {
                        same_cursors(old(self), final(self))
                    } else {
                        match next_occurrence(ls, c, s) {
                            None => same_cursors(old(self), final(self)),
                            Some(p) => cursor_state(final(self)) == jumped(
                                ls,
                                (
                                    cs.push(Cursor { position: clamp(ls, p), selection_anchor: None, desired_visual_x: 0 }),
                                    old(self).cursor_undo_view(),
                                    old(self).cursor_redo_view(),
                                ),
                                cs.len() as int,
                                moved(ls, old(self).line_chars(), p, s.end.x - s.start.x, 0),
                                true,
                            ),
                        }
                    },
                }
            }),
    {
        let ghost ls = self.lines_view();
        let cursor = self.get_cursor(CursorIndex::Main);
        let selection = match cursor.get_selection() {
            Some(selection) => selection,
            None => {
                self.select_current_word_at_cursors();
                return;
            },
        };
        if selection.start.y != selection.end.y {
            return;
        }
        let start = cursor.position;
        let line = match self.get_line(start.y) {
            Some(line) => line,
            None => {
                return;
            },
        };
        proof {
            lemma_str_valid(line);
        }
        let text = sub_str(line, selection.start.x, selection.end.x);
        proof {
            assert(bytes(text) == selected_text(ls, selection));
        }
        let position = match self.search(text, start, false) {
            Some(position) => position,
            None => {
                return;
            },
        };
        self.add_cursor(position, 0);
        let delta = (selection.end.x - selection.start.x) as isize;
        let end = self.move_position(position, delta, 0);
        self.jump_cursor(CursorIndex::Main, end, true);
    }

    /// The lines of a document are valid UTF-8.
    pub proof fn lemma_lines_valid(&self)
        ensures
            lines_valid(self.lines_view()),
    {
    }

    /// The characters of the lines are those their bytes decode to.
    proof fn lemma_chars_of_view(&self)
        ensures
            self.line_chars() == chars_of(self.lines_view()),
    {
        assert(self.line_chars() =~= chars_of(self.lines_view()));
    }

    /// Puts a space and then `comment` in at `position` (kept within the document).
    pub fn comment_line(&mut self, comment: &str, position: Position, line_pool: &mut LinePool)
        requires
            old(self).wf(),
            on_char(old(self).lines_view(), clamp(old(self).lines_view(), position)),
            old(self).kind_view() != DocKind::Output ==> cursors_fit(
                old(self).cursors_view(),
                1 + bytes(comment).len() as int,
            ),
        ensures
            final(self).wf(),
            final(self).kind_view() == old(self).kind_view(),
            final(self).line_ending_view() == old(self).line_ending_view(),
            final(self).lines_view() == commented_lines(
                old(self).lines_view(),
                position,
                comment@,
                old(self).kind_view() == DocKind::SingleLine,
            ),
            same_annotations(old(self), final(self)),
            same_cursor_history(old(self), final(self)),
            old(self).kind_view() == DocKind::Output ==> final(self).cursors_view() == old(self).cursors_view(),
            old(self).kind_view() != DocKind::Output ==> final(self).cursors_view() == commented_cursors(
                old(self).lines_view(),
                old(self).cursors_view(),
                position,
                comment@,
                old(self).kind_view() == DocKind::SingleLine,
            ),
            dirtied(old(self), final(self), position.y),
    {
        let ghost ls = self.lines_view();
        let ghost c = clamp(ls, position);
        let ghost single = self.kind == DocKind::SingleLine;
        let space = " ";
        proof {
            reveal_strlit(" ");
            lemma_space_bytes();
            assert(space@ =~= seq![' ']);
            assert(encode_utf8(seq![' '])[0] == 0x20u8);
            assert(grapheme_bytes(seq![' '], 0) =~= seq![0x20u8]);
            let l = ls[c.y as int];
            assert(blen(seq![' ']) == 1);
            assert(grapheme_end(seq![' '], 0) == 1);
            assert(can_step(seq![' '], 0));
            let ls1 = ls.update(c.y as int, l.subrange(0, c.x as int) + seq![0x20u8] + l.subrange(c.x as int, l.len() as int));
            let q1 = Position { x: (c.x + 1) as usize, y: c.y };
            assert(!can_step(seq![' '], 1));
            assert(insert_from(ls1, q1, seq![' '], 1, single) == (ls1, q1));
            assert(insert_from(ls, c, seq![' '], 0, single) == (
                ls.update(c.y as int, l.subrange(0, c.x as int) + seq![0x20u8] + l.subrange(c.x as int, l.len() as int)),
                Position { x: (c.x + 1) as usize, y: c.y },
            ));
        }
        let end = self.insert(position, space, line_pool);
        proof {
            let mid = self.lines_view();
            let l = ls[c.y as int];
            let pre = l.subrange(0, c.x as int);
            let rest = seq![0x20u8] + l.subrange(c.x as int, l.len() as int);
            assert(mid[c.y as int] =~= pre + rest);
            valid_utf8_split(l, c.x as int);
            assert(valid_utf8(seq![0x20u8])) by {
                assert(encode_utf8(seq![' ']) == seq![0x20u8]);
            }
            lemma_boundary_concat(seq![0x20u8], l.subrange(c.x as int, l.len() as int));
            lemma_boundary_concat(pre, rest);
            assert(seq![0x20u8] + l.subrange(c.x as int, l.len() as int) =~= rest);
            assert(bytes(space).len() == 1);
            if self.kind != DocKind::Output {
                lemma_insert_fits(old(self).cursors_view(), c, end, 1, bytes(comment).len() as int);
            }
        }
        self.insert(position, comment, line_pool);
    }

    /// Takes the comment `comment` out of line `y`, and a space after it, where the line is
    /// commented with it; says whether it was.
    pub fn uncomment_line(&mut self, comment: &str, y: usize, line_pool: &mut LinePool) -> (r: bool)
        requires
            old(self).wf(),
            y < old(self).lines_view().len() ==> old(self).lines_view()[y as int].len() + bytes(comment).len()
                <= usize::MAX,
            line_commented(old(self).lines_view(), old(self).line_chars(), comment@, y) ==> boundary(
                old(self).lines_view()[y as int],
                white_prefix_end(old(self).line_chars()[y as int], 0) + bytes(comment).len(),
            ),
            old(self).kind_view() != DocKind::Output && y < old(self).lines_view().len() ==> cursors_fit(
                old(self).cursors_view(),
                old(self).lines_view()[y as int].len() as int,
            ),
        ensures
            final(self).wf(),
            final(self).kind_view() == old(self).kind_view(),
            final(self).line_ending_view() == old(self).line_ending_view(),
            same_annotations(old(self), final(self)),
            same_cursor_history(old(self), final(self)),
            !r || old(self).kind_view() == DocKind::Output ==> final(self).cursors_view() == old(self).cursors_view(),
            r && old(self).kind_view() != DocKind::Output ==> final(self).cursors_view() == uncommented_cursors(
                old(self).lines_view(),
                old(self).line_chars(),
                old(self).cursors_view(),
                y,
                bytes(comment).len() as int,
            ),
            r == line_commented(old(self).lines_view(), old(self).line_chars(), comment@, y),
            !r ==> final(self).lines_view() == old(self).lines_view() && undirtied(old(self), final(self)),
            r ==> final(self).lines_view() == uncommented_lines(
                old(self).lines_view(),
                old(self).line_chars(),
                y,
                bytes(comment).len() as int,
            ),
            r && uncomment_changes(old(self).lines_view(), old(self).line_chars(), y, bytes(comment).len() as int)
                ==> dirtied(old(self), final(self), y),
            r && !uncomment_changes(old(self).lines_view(), old(self).line_chars(), y, bytes(comment).len() as int)
                ==> undirtied(old(self), final(self)),
    {
        if !self.is_line_commented(comment, y) {
            return false;
        }
        let ghost ls = self.lines_view();
        let ghost lc = self.line_chars();
        proof {
            lemma_str_valid(comment);
        }
        let start = Position::new(self.get_line_start(y), y);
        let end = Position::new(start.x + str_len(comment), y);
        proof {
            is_char_boundary_start_end_of_seq(ls[y as int]);
            if self.kind != DocKind::Output {
                lemma_fits_less(self.cursors@, ls[y as int].len() as int, start.x as int);
            }
        }
        let ghost cs = self.cursors@;
        self.delete(start, end, line_pool);
        let ghost l1 = self.lines_view();
        proof {
            self.lemma_chars_of_view();
            let l = ls[y as int];
            let pre = l.subrange(0, start.x as int);
            let post = l.subrange(end.x as int, l.len() as int);
            valid_utf8_split(l, start.x as int);
            valid_utf8_split(l, end.x as int);
            if start != end {
                assert(l1[y as int] == pre + post);
                lemma_boundary_concat(pre, post);
            }
        }
        proof {
            if self.kind != DocKind::Output {
                assert(clamp(ls, start) == start);
                assert(clamp(ls, end) == end);
                lemma_delete_in_line_fits(cs, start, end, ls[y as int].len() as int);
                lemma_fits_less(self.cursors@, ls[y as int].len() as int, start.x as int);
            }
        }
        if super::grapheme::is_single_byte(self.get_grapheme(start), 0x20) {
            let next = self.move_position(start, 1, 0);
            self.delete(start, next, line_pool);
        }
        true
    }

    /// Where the text from `start` to `end` being put in moves `position`.
    pub fn shift_position_by_insert(&self, start: Position, end: Position, position: Position) -> (r: Position)
        requires
            position.x + end.x <= usize::MAX,
            position.y + end.y <= usize::MAX,
        ensures
            r == shifted_by_insert(start, end, position),
    {
        if start.y == position.y && start.x <= position.x {
            Position::new(position.x + end.x - start.x, position.y + end.y - start.y)
        } else if start.y < position.y {
            Position::new(position.x, position.y + end.y - start.y)
        } else {
            position
        }
    }

    /// Where the text from `start` to `end` being taken out moves `position`.
    pub fn shift_position_by_delete(&self, start: Position, end: Position, position: Position) -> (r: Position)
        requires
            start.x <= isize::MAX,
            end.x <= isize::MAX,
            position.x + start.x <= isize::MAX,
        ensures
            r == shifted_by_delete(start, end, position),
    {
        let influence_end = end.min(position);
        if influence_end.is_before(&start) || influence_end == start {
            return position;
        }
        if influence_end.y == position.y && influence_end.x <= position.x {
            Position::new(position.x - influence_end.x + start.x, position.y - (influence_end.y - start.y))
        } else if influence_end.y < position.y {
            Position::new(position.x, position.y - (influence_end.y - start.y))
        } else {
            position
        }
    }
}

/// Putting text in and taking the same text out again leaves every position where it was.
pub proof fn law_shift_insert_then_delete(start: Position, end: Position, p: Position)
    requires
        pos_le(start, end),
        p.x + end.x <= usize::MAX,
        p.y + end.y <= usize::MAX,
    ensures
        shifted_by_delete(start, end, shifted_by_insert(start, end, p)) == p,
{
}

/// Every line is valid UTF-8.
pub open spec fn lines_valid(ls: Seq<Seq<u8>>) -> bool {
    forall|k: int| 0 <= k < ls.len() ==> valid_utf8(#[trigger] ls[k])
}

/// The position and the selection anchor of each cursor lie on characters of the lines.
pub open spec fn cursors_on_chars(ls: Seq<Seq<u8>>, cs: Seq<Cursor>) -> bool {
    forall|i: int| 0 <= i < cs.len() ==> on_char(ls, (#[trigger] cs[i]).position) && match cs[i].selection_anchor {
        Some(a) => on_char(ls, a),
        None => true,
    }
}

/// In valid UTF-8, a byte offset within the bytes starts a character exactly where the byte
/// there is not a continuation byte; the end is a boundary too.
proof fn lemma_boundary_local(b: Seq<u8>, i: int)
    requires
        valid_utf8(b),
        0 <= i <= b.len(),
    ensures
        i < b.len() ==> (boundary(b, i) <==> !is_continuation_byte(b[i])),
        i == b.len() ==> boundary(b, i),
{
    is_char_boundary_start_end_of_seq(b);
    if i < b.len() {
        is_char_boundary_iff_not_is_continuation_byte(b, i);
    }
}

/// Two valid UTF-8 byte sequences with the same byte at offsets `i` and `j` (or both at their
/// ends) have a boundary at one exactly where the other has one at the other.
proof fn lemma_boundary_same_byte(a: Seq<u8>, i: int, b: Seq<u8>, j: int)
    requires
        valid_utf8(a),
        valid_utf8(b),
        0 <= i <= a.len(),
        0 <= j <= b.len(),
        (i == a.len() && j == b.len()) || (i < a.len() && j < b.len() && a[i] == b[j]),
    ensures
        boundary(a, i) <==> boundary(b, j),
{
    lemma_boundary_local(a, i);
    lemma_boundary_local(b, j);
}

/// Taking out the text from `s` to `e` keeps a position on a character of the lines on a
/// character.
proof fn lemma_delete_keeps_on_char(ls: Seq<Seq<u8>>, s: Position, e: Position, p: Position)
    requires
        lines_valid(ls),
        ls[s.y as int].len() + ls[e.y as int].len() <= usize::MAX,
        pos_le(s, e),
        on_char(ls, s),
        on_char(ls, e),
        on_char(ls, p),
    ensures
        on_char(delete_lines(ls, s, e), shifted_by_delete(s, e, p)),
{
    let ls2 = delete_lines(ls, s, e);
    let q = shifted_by_delete(s, e, p);
    if s == e {
        lemma_delete_in_line(s, e, p);
        return;
    }
    let ls_s = ls[s.y as int];
    let ls_e = ls[e.y as int];
    let pre = ls_s.subrange(0, s.x as int);
    let post = ls_e.subrange(e.x as int, ls_e.len() as int);
    let j = pre + post;
    valid_utf8_split(ls_s, s.x as int);
    valid_utf8_split(ls_e, e.x as int);
    valid_utf8_concat(pre, post);
    assert(ls2.len() == ls.len() - (e.y - s.y));
    assert(ls2[s.y as int] == j);
    assert(forall|k: int| 0 <= k < s.y ==> ls2[k] == ls[k]);
    assert(forall|k: int| s.y < k < ls2.len() ==> ls2[k] == ls[k + (e.y - s.y)]);
    // The join point is a boundary of the joined line.
    assert(boundary(j, s.x as int)) by {
        if e.x < ls_e.len() {
            assert(j[s.x as int] == ls_e[e.x as int]);
            lemma_boundary_same_byte(j, s.x as int, ls_e, e.x as int);
        } else {
            assert(j.len() == s.x);
            lemma_boundary_local(j, s.x as int);
        }
    }
    if pos_le(p, s) {
        assert(q == p);
        if p.y == s.y && p.x < s.x {
            assert(j[p.x as int] == ls_s[p.x as int]);
            lemma_boundary_same_byte(j, p.x as int, ls_s, p.x as int);
        } else if p.y < s.y {
            assert(ls2[p.y as int] == ls[p.y as int]);
        }
    } else if pos_lt(p, e) {
        assert(q == s);
    } else if p.y == e.y {
        let x = s.x + (p.x - e.x);
        assert(q == Position { x: x as usize, y: s.y });
        if p.x < ls_e.len() {
            assert(j[x] == ls_e[p.x as int]);
            lemma_boundary_same_byte(j, x, ls_e, p.x as int);
        } else {
            assert(x == j.len());
            lemma_boundary_local(j, x);
        }
    } else {
        assert(q == Position { x: p.x, y: (p.y - (e.y - s.y)) as usize });
        assert(ls2[q.y as int] == ls[p.y as int]);
    }
}

/// Taking text out keeps every cursor that lies on characters of the lines on characters.
pub proof fn law_delete_keeps_cursors_on_chars(ls: Seq<Seq<u8>>, cs: Seq<Cursor>, s: Position, e: Position)
    requires
        lines_valid(ls),
        ls[s.y as int].len() + ls[e.y as int].len() <= usize::MAX,
        pos_le(s, e),
        on_char(ls, s),
        on_char(ls, e),
        cursors_on_chars(ls, cs),
    ensures
        cursors_on_chars(delete_lines(ls, s, e), cursors_shifted_by_delete(cs, s, e)),
{
    let cs2 = cursors_shifted_by_delete(cs, s, e);
    let ls2 = delete_lines(ls, s, e);
    assert forall|i: int| 0 <= i < cs2.len() implies on_char(ls2, (#[trigger] cs2[i]).position) && match cs2[i].selection_anchor {
        Some(a) => on_char(ls2, a),
        None => true,
    } by {
        let c = cs[i];
        lemma_delete_keeps_on_char(ls, s, e, c.position);
        if let Some(a) = c.selection_anchor {
            lemma_delete_keeps_on_char(ls, s, e, a);
        }
    }
}

/// Putting text in at `q` keeps a position on a character of the lines on a character.
proof fn lemma_insert_keeps_on_char(ls: Seq<Seq<u8>>, q: Position, t: Seq<char>, single_line: bool, p: Position)
    requires
        lines_valid(ls),
        lines_valid(insert_from(ls, q, t, 0, single_line).0),
        on_char(ls, q),
        ls[q.y as int].len() + blen(t) <= usize::MAX,
        ls.len() + blen(t) <= usize::MAX,
        on_char(ls, p),
    ensures
        on_char(
            insert_from(ls, q, t, 0, single_line).0,
            shifted_by_insert(q, insert_from(ls, q, t, 0, single_line).1, p),
        ),
{
    lemma_insert_from(ls, q, t, 0, single_line);
    let (ls2, e) = insert_from(ls, q, t, 0, single_line);
    let r = shifted_by_insert(q, e, p);
    let b = ls[q.y as int];
    if p.y < q.y {
        assert(ls2.subrange(0, q.y as int)[p.y as int] == ls.subrange(0, q.y as int)[p.y as int]);
        assert(ls2[p.y as int] == ls[p.y as int]);
    } else if p.y == q.y && p.x < q.x {
        let a = ls2[q.y as int];
        assert(a.subrange(0, q.x as int)[p.x as int] == b.subrange(0, q.x as int)[p.x as int]);
        lemma_boundary_same_byte(a, p.x as int, b, p.x as int);
    } else if p.y == q.y {
        let a = ls2[e.y as int];
        let x = e.x + (p.x - q.x);
        assert(a.len() <= b.len() + blen(t));
        assert(r == Position { x: x as usize, y: e.y });
        assert(a.len() - e.x == b.len() - q.x) by {
            assert(a.subrange(e.x as int, a.len() as int).len() == b.subrange(q.x as int, b.len() as int).len());
        }
        if p.x < b.len() {
            assert(a.subrange(e.x as int, a.len() as int)[p.x - q.x] == b.subrange(q.x as int, b.len() as int)[p.x - q.x]);
            lemma_boundary_same_byte(a, x, b, p.x as int);
        } else {
            lemma_boundary_local(a, x);
        }
    } else {
        let k = p.y - q.y - 1;
        assert(ls2.subrange(e.y + 1, ls2.len() as int)[k] == ls.subrange(q.y + 1, ls.len() as int)[k]);
        assert(ls2[r.y as int] == ls[p.y as int]);
    }
}

/// Putting text in keeps every cursor that lies on characters of the lines on characters.
pub proof fn law_insert_keeps_cursors_on_chars(
    ls: Seq<Seq<u8>>,
    cs: Seq<Cursor>,
    q: Position,
    t: Seq<char>,
    single_line: bool,
)
    requires
        lines_valid(ls),
        lines_valid(insert_from(ls, q, t, 0, single_line).0),
        on_char(ls, q),
        ls[q.y as int].len() + blen(t) <= usize::MAX,
        ls.len() + blen(t) <= usize::MAX,
        cursors_on_chars(ls, cs),
    ensures
        cursors_on_chars(
            insert_from(ls, q, t, 0, single_line).0,
            cursors_shifted_by_insert(cs, q, insert_from(ls, q, t, 0, single_line).1),
        ),
{
    let (ls2, e) = insert_from(ls, q, t, 0, single_line);
    let cs2 = cursors_shifted_by_insert(cs, q, e);
    assert forall|i: int| 0 <= i < cs2.len() implies on_char(ls2, (#[trigger] cs2[i]).position) && match cs2[i].selection_anchor {
        Some(a) => on_char(ls2, a),
        None => true,
    } by {
        let c = cs[i];
        lemma_insert_keeps_on_char(ls, q, t, single_line, c.position);
        if let Some(a) = c.selection_anchor {
            lemma_insert_keeps_on_char(ls, q, t, single_line, a);
        }
    }
}

/// Putting text in and taking the same text out again leaves every cursor, its position and
/// its selection anchor, where it was.
pub proof fn law_cursors_insert_then_delete(cs: Seq<Cursor>, start: Position, end: Position)
    requires
        pos_le(start, end),
        cursors_fit(cs, end.x + end.y),
    ensures
        cursors_shifted_by_delete(cursors_shifted_by_insert(cs, start, end), start, end) == cs,
{
    let back = cursors_shifted_by_delete(cursors_shifted_by_insert(cs, start, end), start, end);
    assert forall|i: int| 0 <= i < cs.len() implies #[trigger] back[i] == cs[i] by {
        let c = cs[i];
        law_shift_insert_then_delete(start, end, c.position);
        if let Some(a) = c.selection_anchor {
            law_shift_insert_then_delete(start, end, a);
        }
    }
    assert(back =~= cs);
}

/// Sending the main cursor back and then forward again leaves the cursors and the history as
/// they were, where there was a position to go back to.
pub proof fn law_cursor_undo_then_redo(st: (Seq<Cursor>, Seq<Position>, Seq<Position>))
    requires
        st.0.len() > 0,
        st.1.len() > 0,
    ensures
        cursor_redone(cursor_undone(st)) == st,
{
    let (cs, undo, redo) = st;
    let (cs2, undo2, redo2) = cursor_redone(cursor_undone(st));
    assert(cs2 =~= cs);
    assert(undo2 =~= undo);
    assert(redo2 =~= redo);
}

/// Sending the main cursor forward and then back again leaves the cursors and the history as
/// they were, where there was a position to go forward to.
pub proof fn law_cursor_redo_then_undo(st: (Seq<Cursor>, Seq<Position>, Seq<Position>))
    requires
        st.0.len() > 0,
        st.2.len() > 0,
    ensures
        cursor_undone(cursor_redone(st)) == st,
{
    let (cs, undo, redo) = st;
    let (cs2, undo2, redo2) = cursor_undone(cursor_redone(st));
    assert(cs2 =~= cs);
    assert(undo2 =~= undo);
    assert(redo2 =~= redo);
}

/// Joining lines grows by at least one byte a line.
proof fn lemma_joined_gap(ls: Seq<Seq<u8>>, a: int, b: int)
    requires
        0 <= a <= b,
    ensures
        joined_lines(ls, 0, a).len() + (b - a) <= joined_lines(ls, 0, b).len(),
    decreases b - a,
{
    if a < b {
        lemma_joined_gap(ls, a, b - 1);
        lemma_joined_grows(ls, b - 1, b);
    }
}

/// Skipping lines upward from `p` with enough steps: it passes only lines as empty as asked,
/// and stops at the first line or at a line that is not.
proof fn lemma_skip_up(ls: Seq<Seq<u8>>, p: Position, se: bool, fuel: nat)
    requires
        ls.len() > 0,
        within(ls, p),
        fuel >= p.y,
    ensures
        ({
            let q = lines_skip_from(ls, p, -1, se, fuel);
            &&& within(ls, q)
            &&& q.y <= p.y
            &&& forall|y: int| q.y < y <= p.y ==> (#[trigger] ls[y].len() == 0) == se
            &&& q.y == 0 || (ls[q.y as int].len() == 0) != se
        }),
    decreases fuel,
{
    let next = moved_vertically(ls, p, -1);
    if fuel == 0 || (ls[p.y as int].len() == 0) != se || next == p {
    } else {
        lemma_skip_up(ls, next, se, (fuel - 1) as nat);
    }
}

/// Skipping lines downward from `p` with enough steps: it passes only lines as empty as
/// asked, and stops at the last line or at a line that is not.
proof fn lemma_skip_down(ls: Seq<Seq<u8>>, p: Position, se: bool, fuel: nat)
    requires
        0 < ls.len() <= usize::MAX,
        within(ls, p),
        fuel >= ls.len() - 1 - p.y,
    ensures
        ({
            let q = lines_skip_from(ls, p, 1, se, fuel);
            &&& within(ls, q)
            &&& p.y <= q.y
            &&& forall|y: int| p.y <= y < q.y ==> (#[trigger] ls[y].len() == 0) == se
            &&& q.y == ls.len() - 1 || (ls[q.y as int].len() == 0) != se
        }),
    decreases fuel,
{
    let next = moved_vertically(ls, p, 1);
    if fuel == 0 || (ls[p.y as int].len() == 0) != se || next == p {
    } else {
        lemma_skip_down(ls, next, se, (fuel - 1) as nat);
    }
}

/// Moving to the paragraph above from a blank line first passes the blank lines: from the
/// line of `p` the move goes up over empty lines to line `y1` (a line with text, or the first
/// line), then over the lines with text to the empty line above them, or to the first line.
pub proof fn law_paragraph_up(ls: Seq<Seq<u8>>, p: Position)
    requires
        0 < ls.len() <= usize::MAX,
    ensures
        ({
            let y0 = clamp(ls, p).y as int;
            let r = next_paragraph(ls, p, -1, true);
            &&& within(ls, r)
            &&& r.y <= y0
            &&& exists|y1: int|
                #![trigger ls[y1]]
                r.y <= y1 <= y0 && (forall|y: int| y1 < y <= y0 ==> #[trigger] ls[y].len() == 0) && (y1 == 0
                    || ls[y1].len() != 0) && (forall|y: int| r.y < y <= y1 ==> #[trigger] ls[y].len() != 0) && (
                r.y == 0 || ls[r.y as int].len() == 0)
        }),
{
    let c = clamp(ls, p);
    lemma_joined_gap(ls, 0, c.y as int);
    lemma_skip_up(ls, c, true, room(ls, c, false));
    let s = lines_skipped(ls, c, -1, true);
    lemma_joined_gap(ls, 0, s.y as int);
    lemma_skip_up(ls, s, ls[s.y as int].len() == 0, room(ls, s, false));
    let r = next_paragraph(ls, p, -1, true);
    assert(r.y <= s.y <= c.y);
    assert(forall|y: int| s.y < y <= c.y ==> #[trigger] ls[y].len() == 0);
    if ls[s.y as int].len() == 0 {
        assert(s.y == 0);
    }
    assert(ls[s.y as int] == ls[s.y as int]);
}

/// Moving to the paragraph below from a blank line first passes the blank lines: from the
/// line of `p` the move goes down over empty lines to line `y1` (a line with text, or the last
/// line), then over the lines with text to the empty line below them, or to the last line.
pub proof fn law_paragraph_down(ls: Seq<Seq<u8>>, p: Position)
    requires
        0 < ls.len(),
        fits(ls),
    ensures
        ({
            let y0 = clamp(ls, p).y as int;
            let r = next_paragraph(ls, p, 1, true);
            &&& within(ls, r)
            &&& y0 <= r.y
            &&& exists|y1: int|
                #![trigger ls[y1]]
                y0 <= y1 <= r.y && (forall|y: int| y0 <= y < y1 ==> #[trigger] ls[y].len() == 0) && (y1 == ls.len()
                    - 1 || ls[y1].len() != 0) && (forall|y: int| y1 <= y < r.y ==> #[trigger] ls[y].len() != 0) && (
                r.y == ls.len() - 1 || ls[r.y as int].len() == 0)
        }),
{
    let c = clamp(ls, p);
    lemma_fuel_down(ls, c);
    lemma_skip_down(ls, c, true, room(ls, c, true));
    let s = lines_skipped(ls, c, 1, true);
    lemma_fuel_down(ls, s);
    lemma_skip_down(ls, s, ls[s.y as int].len() == 0, room(ls, s, true));
    let r = next_paragraph(ls, p, 1, true);
    assert(c.y <= s.y <= r.y);
    assert(forall|y: int| c.y <= y < s.y ==> #[trigger] ls[y].len() == 0);
    if ls[s.y as int].len() == 0 {
        assert(s.y == ls.len() - 1);
    }
    assert(ls[s.y as int] == ls[s.y as int]);
}

/// Going down from `p` there are at least as many steps as lines below it.
proof fn lemma_fuel_down(ls: Seq<Seq<u8>>, p: Position)
    requires
        0 < ls.len(),
        fits(ls),
        within(ls, p),
    ensures
        room(ls, p, true) >= ls.len() - 1 - p.y,
{
    assert(ls.last().len() <= usize::MAX);
    if p.y < ls.len() - 1 {
        lemma_joined_grows(ls, p.y as int, p.y + 1);
        lemma_joined_gap(ls, p.y + 1, ls.len() - 1);
    }
}

/// Whether the first character of `tb` comes back nowhere later in it.
pub open spec fn first_char_once(tb: Seq<u8>) -> bool {
    forall|k: int|
        0 < k < tb.len() && boundary(tb, k) ==> #[trigger] tb.subrange(k, next_char_end(tb, k)) != tb.subrange(
            0,
            next_char_end(tb, 0),
        )
}

/// Where `tb` stands in `l` at `x0`, from one character boundary to another, the character
/// boundaries of the two agree.
proof fn lemma_occurrence_boundaries(l: Seq<u8>, tb: Seq<u8>, x0: int)
    requires
        valid_utf8(l),
        valid_utf8(tb),
        0 <= x0,
        x0 + tb.len() <= l.len(),
        l.subrange(x0, x0 + tb.len()) == tb,
        boundary(l, x0),
        boundary(l, x0 + tb.len()),
    ensures
        forall|k: int| 0 <= k <= tb.len() ==> (boundary(l, x0 + k) <==> #[trigger] boundary(tb, k)),
{
    is_char_boundary_start_end_of_seq(tb);
    assert forall|k: int| 0 <= k <= tb.len() implies (boundary(l, x0 + k) <==> #[trigger] boundary(tb, k)) by {
        if 0 < k < tb.len() {
            is_char_boundary_iff_not_is_continuation_byte(l, x0 + k);
            is_char_boundary_iff_not_is_continuation_byte(tb, k);
            assert(l[x0 + k] == tb[k]);
        }
    }
}

/// Where `tb` stands in `l` at `x0`, the character after a boundary `k` of `tb` ends at the
/// same place in both.
proof fn lemma_occurrence_next_char(l: Seq<u8>, tb: Seq<u8>, x0: int, k: int)
    requires
        valid_utf8(l),
        valid_utf8(tb),
        0 <= x0,
        x0 + tb.len() <= l.len(),
        l.subrange(x0, x0 + tb.len()) == tb,
        boundary(l, x0),
        boundary(l, x0 + tb.len()),
        0 <= k < tb.len(),
    ensures
        k < next_char_end(tb, k) <= tb.len(),
        boundary(tb, next_char_end(tb, k)),
        next_char_end(l, x0 + k) == x0 + next_char_end(tb, k),
        l.subrange(x0 + k, next_char_end(l, x0 + k)) == tb.subrange(k, next_char_end(tb, k)),
{
    is_char_boundary_start_end_of_seq(tb);
    lemma_occurrence_boundaries(l, tb, x0);
    lemma_next_boundary_exists(tb, k, tb.len() as int);
    let j = next_char_end(tb, k);
    assert(is_next_char_boundary(l, x0 + k, x0 + j)) by {
        assert(boundary(tb, j));
        assert forall|m: int| x0 + k < m < x0 + j implies !boundary(l, m) by {
            assert(!boundary(tb, m - x0));
        }
    }
    lemma_next_char_end(l, x0 + k, x0 + j);
    assert(l.subrange(x0 + k, x0 + j) =~= tb.subrange(k, j));
}

/// A forward search lined up with the occurrence of `tb` at `x0` of line `y`, `m` bytes in,
/// finds the occurrence.
proof fn lemma_search_aligned(
    ls: Seq<Seq<u8>>,
    tb: Seq<u8>,
    y: int,
    m: int,
    start_y: int,
    wrap: bool,
    n: nat,
    x0: int,
)
    requires
        0 <= y < ls.len(),
        valid_utf8(ls[y]),
        valid_utf8(tb),
        0 <= x0,
        x0 + tb.len() <= ls[y].len(),
        ls[y].subrange(x0, x0 + tb.len()) == tb,
        boundary(ls[y], x0),
        boundary(ls[y], x0 + tb.len()),
        0 < m < tb.len(),
        boundary(tb, m),
    ensures
        search_from(ls, tb, y, x0 + m, m, start_y, wrap, n) == SearchOutcome::Found(
            Position { x: x0 as usize, y: y as usize },
        ),
    decreases tb.len() - m,
{
    let l = ls[y];
    lemma_occurrence_next_char(l, tb, x0, m);
    let ce = next_char_end(l, x0 + m);
    let m2 = next_char_end(tb, m);
    assert(match_step(tb, m, l.subrange(x0 + m, ce)) == m2);
    if m2 < tb.len() {
        lemma_search_aligned(ls, tb, y, m2, start_y, wrap, n, x0);
    }
}

/// A forward search in line `y` at `x`, not past the occurrence of `tb` at `x0`, with the
/// last `m` bytes before `x` (all from `px` on) matching the start of `tb`, finds a match
/// starting between `px` and `x0`, where the first character of `tb` comes back nowhere in
/// it.
proof fn lemma_search_scan(
    ls: Seq<Seq<u8>>,
    tb: Seq<u8>,
    y: int,
    x: int,
    m: int,
    start_y: int,
    wrap: bool,
    n: nat,
    px: int,
    x0: int,
)
    requires
        0 <= y < ls.len(),
        valid_utf8(ls[y]),
        valid_utf8(tb),
        first_char_once(tb),
        0 <= px <= x <= x0,
        x0 + tb.len() <= ls[y].len(),
        ls[y].len() <= usize::MAX,
        ls.len() <= usize::MAX,
        ls[y].subrange(x0, x0 + tb.len()) == tb,
        boundary(ls[y], x),
        boundary(ls[y], x0),
        boundary(ls[y], x0 + tb.len()),
        0 <= m < tb.len(),
        m <= x - px,
        boundary(tb, m),
        ls[y].subrange(x - m, x) == tb.subrange(0, m),
    ensures
        search_from(ls, tb, y, x, m, start_y, wrap, n) matches SearchOutcome::Found(q) && q.y == y && px <= q.x
            <= x0,
    decreases x0 - x,
{
    let l = ls[y];
    is_char_boundary_start_end_of_seq(tb);
    lemma_occurrence_next_char(l, tb, x0, 0);
    let c0 = next_char_end(tb, 0);
    if x < x0 {
        lemma_next_boundary_exists(l, x, x0);
        let ce = next_char_end(l, x);
        let c = l.subrange(x, ce);
        lemma_next_boundary_exists(tb, m, tb.len() as int);
        let nm = next_char_end(tb, m);
        let m2 = match_step(tb, m, c);
        assert(x < l.len() && x < ce <= l.len());
        if tb.subrange(m, nm) == c {
            assert(m2 == nm);
            assert(tb.subrange(m, nm).len() == c.len());
            assert(nm - m == ce - x);
            if m2 < tb.len() {
                assert(l.subrange(ce - m2, ce) =~= l.subrange(x - m, x) + l.subrange(x, ce));
                assert(tb.subrange(0, m2) =~= tb.subrange(0, m) + tb.subrange(m, nm));
                lemma_search_scan(ls, tb, y, ce, m2, start_y, wrap, n, px, x0);
            }
        } else if m > 0 && tb.subrange(0, c0) == c {
            assert(m2 == c0);
            assert(tb.subrange(0, c0).len() == c.len());
            assert(c0 == ce - x);
            if m2 < tb.len() {
                assert(l.subrange(ce - m2, ce) =~= c);
                lemma_search_scan(ls, tb, y, ce, m2, start_y, wrap, n, px, x0);
            }
        } else {
            assert(m2 == 0);
            assert(l.subrange(ce, ce) =~= tb.subrange(0, 0));
            lemma_search_scan(ls, tb, y, ce, 0, start_y, wrap, n, px, x0);
        }
    } else {
        let ce = next_char_end(l, x0);
        let c = l.subrange(x0, ce);
        assert(c == tb.subrange(0, c0));
        assert(x0 < l.len() && x0 < ce <= l.len());
        if m > 0 {
            lemma_next_boundary_exists(tb, m, tb.len() as int);
            assert(tb.subrange(m, next_char_end(tb, m)) != tb.subrange(0, c0));
        }
        assert(match_step(tb, m, c) == c0);
        if c0 < tb.len() {
            lemma_search_aligned(ls, tb, y, c0, start_y, wrap, n, x0);
        }
    }
}

/// A forward search finds a match on its first line where one is there: where `tb` (whose
/// first character comes back nowhere later in it) stands in the line of `p` at `x0`, on or
/// after `p`, the search finds a match in that line from `p` up to `x0`. With the search's
/// soundness (`law_search_forward_finds_text`), that is the first place from `p` on where the
/// text stands.
pub proof fn law_search_forward_finds_first_on_line(ls: Seq<Seq<u8>>, tb: Seq<u8>, p: Position, wrap: bool, x0: int)
    requires
        valid_utf8(tb),
        tb.len() > 0,
        first_char_once(tb),
        fits(ls),
        within(ls, p),
        valid_utf8(ls[p.y as int]),
        boundary(ls[p.y as int], p.x as int),
        p.x <= x0,
        x0 + tb.len() <= ls[p.y as int].len(),
        boundary(ls[p.y as int], x0),
        boundary(ls[p.y as int], x0 + tb.len()),
        ls[p.y as int].subrange(x0, x0 + tb.len()) == tb,
    ensures
        search_forward_from(ls, tb, p, wrap) matches SearchOutcome::Found(q) && q.y == p.y && p.x <= q.x <= x0,
{
    is_char_boundary_start_end_of_seq(tb);
    assert(ls[p.y as int].subrange(p.x as int, p.x as int) =~= tb.subrange(0, 0));
    lemma_search_scan(ls, tb, p.y as int, p.x as int, 0, p.y as int, wrap, (ls.len() - 1) as nat, p.x as int, x0);
}

} // verus!
