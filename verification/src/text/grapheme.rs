use vstd::prelude::*;
use vstd::utf8::*;
use vstd::string::*;
use super::strs::{bytes, boundary, lemma_str_valid, lemma_ascii_byte_boundary, sub_str, str_len};

verus! {

broadcast use vstd::utf8::encode_utf8_valid_utf8;

/// The grapheme boundary that `unicode_segmentation` finds after byte `index`, with a cursor
/// over a string of `len` bytes of which `text` is the start.
pub uninterp spec fn unicode_next_boundary(text: Seq<char>, index: usize, len: usize) -> Option<usize>;

/// The grapheme boundary that `unicode_segmentation` finds before byte `index`, with a cursor
/// over a string of `len` bytes of which `text` is the start.
pub uninterp spec fn unicode_prev_boundary(text: Seq<char>, index: usize, len: usize) -> Option<usize>;

/// Where a call of the crate's cursor does not panic: at the end, or at a character boundary
/// of the text it is given.
pub open spec fn unicode_cursor_ok(text: Seq<char>, index: usize, len: usize) -> bool {
    index == len || (index <= encode_utf8(text).len() && boundary(encode_utf8(text), index as int))
}

/// Calls `unicode_segmentation::GraphemeCursor::next_boundary` on a cursor made at `index`
/// (extended clusters) with `text` as the single chunk, maps every error to `None`, and gives
/// with it where the cursor stands after the call (`GraphemeCursor::cur_cursor`).
/// Claimed: the result is a function of the arguments; at `index == len` it is `None`; a
/// result is a character boundary after `index` within the text; when the whole text is
/// given (`len` is its length) a boundary is always found before the end; the cursor stands
/// at the boundary it found; where it found none and did not start at `len`, it has walked
/// to the end of the text (it asks for the next chunk there, never meeting `len` on the way
/// when it started past it).
#[verifier::external_body]
pub(crate) fn unicode_next(text: &str, index: usize, len: usize) -> (r: (Option<usize>, usize))
    requires
        unicode_cursor_ok(text@, index, len),
    ensures
        r.0 == unicode_next_boundary(text@, index, len),
        index == len ==> r.0 is None,
        r.0 matches Some(e) ==> index < e <= bytes(text).len() && boundary(bytes(text), e as int),
        index < len && len == bytes(text).len() ==> r.0 is Some,
        r.0 matches Some(e) ==> r.1 == e,
        r.0 is None ==> r.1 == (if index == len { index } else { bytes(text).len() as usize }),
{
    let mut cursor = unicode_segmentation::GraphemeCursor::new(index, len, true);
    let found = match cursor.next_boundary(text, 0) {
        Ok(Some(end)) => Some(end),
        _ => None,
    };
    (found, cursor.cur_cursor())
}

/// Calls `unicode_segmentation::GraphemeCursor::prev_boundary` on a cursor made at `index`
/// (extended clusters) with `text` as the single chunk, and maps every error to `None`.
/// Claimed: the result is a function of the arguments; at `index == 0` it is `None`; a result
/// is a character boundary before `index`; and when the whole text is given a boundary is
/// always found after the start.
#[verifier::external_body]
fn unicode_prev(text: &str, index: usize, len: usize) -> (r: Option<usize>)
    requires
        index <= bytes(text).len(),
        boundary(bytes(text), index as int),
    ensures
        r == unicode_prev_boundary(text@, index, len),
        index == 0 ==> r is None,
        r matches Some(p) ==> p < index && boundary(bytes(text), p as int),
        0 < index && len == bytes(text).len() ==> r is Some,
{
    match unicode_segmentation::GraphemeCursor::new(index, len, true).prev_boundary(text, 0) {
        Ok(Some(start)) => Some(start),
        _ => None,
    }
}

/// The boundary after `index` that this crate's grapheme cursor reports: a byte below 0x7F
/// is a grapheme of its own, anything else is left to `unicode_segmentation`.
pub open spec fn cursor_next(text: Seq<char>, index: usize, len: usize) -> Option<usize> {
    if index < len && encode_utf8(text)[index as int] < 0x7F {
        Some((index + 1) as usize)
    } else {
        unicode_next_boundary(text, index, len)
    }
}

/// Where this crate's grapheme cursor stands after looking for the boundary after `index`:
/// at that boundary; where none was found, at `index` if that is `len`, else at the end of
/// the text, for the cursor walked there before asking for more.
pub open spec fn cursor_next_index(text: Seq<char>, index: usize, len: usize) -> usize {
    match cursor_next(text, index, len) {
        Some(e) => e,
        None => if index == len {
            index
        } else {
            encode_utf8(text).len() as usize
        },
    }
}

/// Where `GraphemeCursor::next_boundary` does not panic.
pub open spec fn cursor_next_ok(text: Seq<char>, index: usize, len: usize) -> bool {
    &&& unicode_cursor_ok(text, index, len)
    &&& index < len ==> index < encode_utf8(text).len()
}

/// The end of the grapheme that starts at `index`, or `index` itself where there is none.
pub open spec fn grapheme_end(text: Seq<char>, index: usize) -> usize {
    match cursor_next(text, index, encode_utf8(text).len() as usize) {
        Some(e) => e,
        None => index,
    }
}

/// The bytes of the grapheme that starts at `index`.
pub open spec fn grapheme_bytes(text: Seq<char>, index: usize) -> Seq<u8> {
    encode_utf8(text).subrange(index as int, grapheme_end(text, index) as int)
}

/// A cursor over the grapheme boundaries of a text of `len` bytes.
#[derive(Debug, Clone)]
pub struct GraphemeCursor {
    index: usize,
    len: usize,
}

impl GraphemeCursor {
    /// The current byte offset.
    pub closed spec fn spec_index(&self) -> usize {
        self.index
    }

    /// The length of the text the cursor was made for.
    pub closed spec fn spec_len(&self) -> usize {
        self.len
    }

    pub fn new(index: usize, len: usize) -> (r: Self)
        ensures
            r.spec_index() == index,
            r.spec_len() == len,
    {
        Self { index, len }
    }

    /// Moves to the next grapheme boundary and returns it, or returns `None`: then it stays
    /// where it was if that is the length it was made for, and otherwise stands at the end of
    /// the text.
    pub fn next_boundary(&mut self, text: &str) -> (r: Option<usize>)
        requires
            cursor_next_ok(text@, old(self).spec_index(), old(self).spec_len()),
        ensures
            r == cursor_next(text@, old(self).spec_index(), old(self).spec_len()),
            final(self).spec_len() == old(self).spec_len(),
            final(self).spec_index() == cursor_next_index(text@, old(self).spec_index(), old(self).spec_len()),
            final(self).spec_index() == match r {
                Some(e) => e,
                None => if old(self).spec_index() == old(self).spec_len() {
                    old(self).spec_index()
                } else {
                    bytes(text).len() as usize
                },
            },
            r matches Some(e) ==> old(self).spec_index() < e <= bytes(text).len() && boundary(
                bytes(text),
                e as int,
            ),
            old(self).spec_index() == old(self).spec_len() ==> r is None,
            old(self).spec_index() < old(self).spec_len() == bytes(text).len() ==> r is Some,
    {
        let index = self.index;
        if index < self.len && text.as_bytes()[index] < 0x7F {
            proof {
                lemma_str_valid(text);
                lemma_ascii_byte_boundary(bytes(text), index as int);
            }
            self.index = index + 1;
            return Some(index + 1);
        }
        let (r, stop) = unicode_next(text, index, self.len);
        self.index = stop;
        r
    }

    /// Moves to the previous grapheme boundary and returns it, or returns `None` and stays.
    pub fn previous_boundary(&mut self, text: &str) -> (r: Option<usize>)
        requires
            old(self).spec_index() <= bytes(text).len(),
            boundary(bytes(text), old(self).spec_index() as int),
        ensures
            r == unicode_prev_boundary(text@, old(self).spec_index(), old(self).spec_len()),
            final(self).spec_len() == old(self).spec_len(),
            final(self).spec_index() == match r {
                Some(p) => p,
                None => old(self).spec_index(),
            },
            r matches Some(p) ==> p < old(self).spec_index() && boundary(bytes(text), p as int),
            0 < old(self).spec_index() && old(self).spec_len() == bytes(text).len() ==> r is Some,
    {
        let r = unicode_prev(text, self.index, self.len);
        if let Some(start) = r {
            self.index = start;
        }
        r
    }

    pub fn set_index(&mut self, index: usize)
        ensures
            final(self).spec_index() == index,
            final(self).spec_len() == old(self).spec_len(),
    {
        self.index = index;
    }

    pub fn index(&self) -> (r: usize)
        ensures
            r == self.spec_index(),
    {
        self.index
    }
}

/// Returns the grapheme that starts at byte `index` of `text` (empty at the end).
pub fn at(index: usize, text: &str) -> (r: &str)
    requires
        index <= bytes(text).len(),
        boundary(bytes(text), index as int),
    ensures
        bytes(r) == grapheme_bytes(text@, index),
        index <= grapheme_end(text@, index) <= bytes(text).len(),
        index < bytes(text).len() ==> index < grapheme_end(text@, index),
        boundary(bytes(text), grapheme_end(text@, index) as int),
{
    let mut grapheme_cursor = GraphemeCursor::new(index, str_len(text));
    grapheme_cursor.next_boundary(text);
    sub_str(text, index, grapheme_cursor.index())
}

/// Returns the grapheme that starts at byte `index` of `text`, or `None` at the end.
pub fn get(index: usize, text: &str) -> (r: Option<&str>)
    requires
        index <= bytes(text).len(),
        boundary(bytes(text), index as int),
    ensures
        r is Some <==> cursor_next(text@, index, bytes(text).len() as usize) is Some,
        r is Some <==> index < bytes(text).len(),
        r matches Some(g) ==> bytes(g) == bytes(text).subrange(
            index as int,
            grapheme_end(text@, index) as int,
        ),
{
    let mut grapheme_cursor = GraphemeCursor::new(index, str_len(text));
    match grapheme_cursor.next_boundary(text) {
        Some(end) => Some(sub_str(text, index, end)),
        None => None,
    }
}

/// The first character boundary after `i`.
pub open spec fn is_next_char_boundary(b: Seq<u8>, i: int, j: int) -> bool {
    &&& i < j
    &&& boundary(b, j)
    &&& forall|k: int| i < k < j ==> !boundary(b, k)
}

/// The last character boundary before `i`.
pub open spec fn is_prev_char_boundary(b: Seq<u8>, i: int, j: int) -> bool {
    &&& j < i
    &&& boundary(b, j)
    &&& forall|k: int| j < k < i ==> !boundary(b, k)
}

/// A cursor over the character boundaries of a text of `len` bytes.
#[derive(Debug, Clone)]
pub struct CharCursor {
    index: usize,
    len: usize,
}

impl CharCursor {
    /// The current byte offset.
    pub closed spec fn spec_index(&self) -> usize {
        self.index
    }

    /// The length of the text the cursor was made for.
    pub closed spec fn spec_len(&self) -> usize {
        self.len
    }

    pub fn new(index: usize, len: usize) -> (r: Self)
        ensures
            r.spec_index() == index,
            r.spec_len() == len,
    {
        Self { index, len }
    }

    /// Moves to the next character boundary, unless the cursor is at or past `len`.
    pub fn next_boundary(&mut self, text: &str) -> (r: Option<usize>)
        requires
            old(self).spec_index() < old(self).spec_len() ==> old(self).spec_index() < bytes(
                text,
            ).len(),
        ensures
            final(self).spec_len() == old(self).spec_len(),
            old(self).spec_index() >= old(self).spec_len() ==> r is None && *final(self)
                == *old(self),
            old(self).spec_index() < old(self).spec_len() ==> r == Some(final(self).spec_index())
                && is_next_char_boundary(
                bytes(text),
                old(self).spec_index() as int,
                final(self).spec_index() as int,
            ) && final(self).spec_index() <= bytes(text).len(),
    {
        if self.index >= self.len {
            return None;
        }
        proof {
            lemma_str_valid(text);
        }
        let n = str_len(text);
        let ghost start = self.index;
        self.index = self.index + 1;
        while !text.is_char_boundary(self.index)
            invariant
                n == bytes(text).len(),
                start < self.index <= bytes(text).len(),
                self.len == old(self).len,
                start == old(self).index,
                boundary(bytes(text), bytes(text).len() as int),
                forall|k: int| start < k < self.index ==> !boundary(bytes(text), k),
            decreases bytes(text).len() - self.index,
        {
            self.index = self.index + 1;
        }
        Some(self.index)
    }

    /// Moves to the previous character boundary, unless the cursor is at 0.
    pub fn previous_boundary(&mut self, text: &str) -> (r: Option<usize>)
        ensures
            final(self).spec_len() == old(self).spec_len(),
            old(self).spec_index() == 0 ==> r is None && *final(self) == *old(self),
            old(self).spec_index() > 0 ==> r == Some(final(self).spec_index())
                && is_prev_char_boundary(
                bytes(text),
                old(self).spec_index() as int,
                final(self).spec_index() as int,
            ),
    {
        if self.index == 0 {
            return None;
        }
        proof {
            lemma_str_valid(text);
        }
        let ghost start = self.index;
        self.index = self.index - 1;
        while !text.is_char_boundary(self.index)
            invariant
                self.index < start,
                self.len == old(self).len,
                start == old(self).index,
                boundary(bytes(text), 0),
                forall|k: int| self.index < k < start ==> !boundary(bytes(text), k),
            decreases self.index,
        {
            self.index = self.index - 1;
        }
        Some(self.index)
    }

    pub fn set_index(&mut self, index: usize)
        ensures
            final(self).spec_index() == index,
            final(self).spec_len() == old(self).spec_len(),
    {
        self.index = index;
    }

    pub fn index(&self) -> (r: usize)
        ensures
            r == self.spec_index(),
    {
        self.index
    }
}

/// Walks the characters of a text, from either end.
pub struct CharIterator<'a> {
    text: &'a str,
    char_cursor: CharCursor,
}

impl<'a> CharIterator<'a> {
    /// The text walked.
    pub closed spec fn spec_text(&self) -> &'a str {
        self.text
    }

    /// The byte offset between the characters handed out from the front and from the back.
    pub closed spec fn spec_index(&self) -> usize {
        self.char_cursor.index
    }

    /// Whether the cursor belongs to the whole text.
    pub closed spec fn wf(&self) -> bool {
        &&& self.char_cursor.len == bytes(self.text).len()
        &&& self.char_cursor.index <= bytes(self.text).len()
        &&& boundary(bytes(self.text), self.char_cursor.index as int)
    }

    pub fn new(text: &'a str) -> (r: Self)
        ensures
            r.spec_text() == text,
            r.spec_index() == 0,
            r.wf(),
    {
        proof {
            lemma_str_valid(text);
        }
        Self { text, char_cursor: CharCursor::new(0, str_len(text)) }
    }

    pub fn with_offset(offset: usize, text: &'a str) -> (r: Self)
        ensures
            r.spec_text() == text,
            r.spec_index() == offset,
            offset <= bytes(text).len() && boundary(bytes(text), offset as int) ==> r.wf(),
    {
        Self { text, char_cursor: CharCursor::new(offset, str_len(text)) }
    }

    /// The character after the current offset, moving past it.
    pub fn next(&mut self) -> (r: Option<&'a str>)
        requires
            old(self).wf(),
        ensures
            final(self).wf(),
            final(self).spec_text() == old(self).spec_text(),
            old(self).spec_index() == bytes(old(self).spec_text()).len() ==> r is None && final(self).spec_index() == old(self).spec_index(),
            old(self).spec_index() < bytes(old(self).spec_text()).len() ==> (r matches Some(c)
                && is_next_char_boundary(
                bytes(old(self).spec_text()),
                old(self).spec_index() as int,
                final(self).spec_index() as int,
            ) && bytes(c) == bytes(old(self).spec_text()).subrange(
                old(self).spec_index() as int,
                final(self).spec_index() as int,
            )),
    {
        let start = self.char_cursor.index();
        match self.char_cursor.next_boundary(self.text) {
            Some(end) => Some(sub_str(self.text, start, end)),
            None => None,
        }
    }

    /// The character before the current offset, moving before it.
    pub fn next_back(&mut self) -> (r: Option<&'a str>)
        requires
            old(self).wf(),
        ensures
            final(self).wf(),
            final(self).spec_text() == old(self).spec_text(),
            old(self).spec_index() == 0 ==> r is None && final(self).spec_index() == 0,
            old(self).spec_index() > 0 ==> (r matches Some(c) && is_prev_char_boundary(
                bytes(old(self).spec_text()),
                old(self).spec_index() as int,
                final(self).spec_index() as int,
            ) && bytes(c) == bytes(old(self).spec_text()).subrange(
                final(self).spec_index() as int,
                old(self).spec_index() as int,
            )),
    {
        let end = self.char_cursor.index();
        match self.char_cursor.previous_boundary(self.text) {
            Some(start) => Some(sub_str(self.text, start, end)),
            None => None,
        }
    }
}

/// Returns the character that starts at byte `index` (empty at the end).
pub fn char_at(index: usize, text: &str) -> (r: &str)
    requires
        index <= bytes(text).len(),
        boundary(bytes(text), index as int),
    ensures
        index == bytes(text).len() ==> bytes(r) == Seq::<u8>::empty(),
        index < bytes(text).len() ==> exists|j: int|
            is_next_char_boundary(bytes(text), index as int, j) && j <= bytes(text).len()
                && bytes(r) == bytes(text).subrange(index as int, j),
{
    let mut char_cursor = CharCursor::new(index, str_len(text));
    char_cursor.next_boundary(text);
    proof {
        lemma_str_valid(text);
    }
    sub_str(text, index, char_cursor.index())
}

/// Returns the character that ends at byte `index` (empty at the start).
pub fn char_ending_at(index: usize, text: &str) -> (r: &str)
    requires
        index <= bytes(text).len(),
        boundary(bytes(text), index as int),
    ensures
        index == 0 ==> bytes(r) == Seq::<u8>::empty(),
        index > 0 ==> exists|j: int|
            is_prev_char_boundary(bytes(text), index as int, j) && bytes(r) == bytes(
                text,
            ).subrange(j, index as int),
{
    let mut char_cursor = CharCursor::new(index, str_len(text));
    char_cursor.previous_boundary(text);
    proof {
        lemma_str_valid(text);
    }
    sub_str(text, char_cursor.index(), index)
}

/// Whether the grapheme `g` is the single byte `b`.
pub fn is_single_byte(g: &str, b: u8) -> (r: bool)
    ensures
        r == (bytes(g) == seq![b]),
{
    let x = g.as_bytes();
    let r = x.len() == 1 && x[0] == b;
    proof {
        if r {
            assert(x@ =~= seq![b]);
        }
    }
    r
}

/// The characters with the Unicode White_Space property: the controls from tab to carriage
/// return, space, next line, no-break space, the Ogham space mark, the spaces from en quad to
/// hair space, the line and paragraph separators, the narrow no-break space, the medium
/// mathematical space and the ideographic space.
pub open spec fn char_whitespace(c: char) -> bool {
    let v = c as u32;
    ||| 0x09 <= v <= 0x0D
    ||| v == 0x20
    ||| v == 0x85
    ||| v == 0xA0
    ||| v == 0x1680
    ||| 0x2000 <= v <= 0x200A
    ||| v == 0x2028
    ||| v == 0x2029
    ||| v == 0x202F
    ||| v == 0x205F
    ||| v == 0x3000
}

/// `char::is_alphabetic`: the Unicode Alphabetic property.
pub uninterp spec fn char_alphabetic(c: char) -> bool;

/// `char::is_lowercase`: the Unicode Lowercase property.
pub uninterp spec fn char_lowercase(c: char) -> bool;

/// `char::is_uppercase`: the Unicode Uppercase property.
pub uninterp spec fn char_uppercase(c: char) -> bool;

/// `char::is_alphanumeric`: Alphabetic, or a Unicode numeric category.
pub uninterp spec fn char_alphanumeric(c: char) -> bool;

/// Whether `c` has the Unicode White_Space property, as `char::is_whitespace` tests it.
pub(crate) fn char_is_whitespace(c: char) -> (r: bool)
    ensures
        r == char_whitespace(c),
{
    let v = c as u32;
    (0x09 <= v && v <= 0x0D) || v == 0x20 || v == 0x85 || v == 0xA0 || v == 0x1680 || (0x2000 <= v
        && v <= 0x200A) || v == 0x2028 || v == 0x2029 || v == 0x202F || v == 0x205F || v == 0x3000
}

/// Whether `c` is an ASCII character.
pub open spec fn is_ascii_char(c: char) -> bool {
    (c as u32) < 0x80
}

/// Calls `char::is_alphabetic`, which tests the Unicode Alphabetic property; claimed: a
/// function of `c`, which among ASCII characters holds of the letters alone.
#[verifier::external_body]
fn char_is_alphabetic(c: char) -> (r: bool)
    ensures
        r == char_alphabetic(c),
        is_ascii_char(c) ==> (r <==> ('a' <= c <= 'z' || 'A' <= c <= 'Z')),
{
    c.is_alphabetic()
}

/// Calls `char::is_lowercase`, which tests the Unicode Lowercase property; claimed: a
/// function of `c`, which among ASCII characters holds of `a` to `z` alone.
#[verifier::external_body]
fn char_is_lowercase(c: char) -> (r: bool)
    ensures
        r == char_lowercase(c),
        is_ascii_char(c) ==> (r <==> 'a' <= c <= 'z'),
{
    c.is_lowercase()
}

/// Calls `char::is_uppercase`, which tests the Unicode Uppercase property; claimed: a
/// function of `c`, which among ASCII characters holds of `A` to `Z` alone.
#[verifier::external_body]
fn char_is_uppercase(c: char) -> (r: bool)
    ensures
        r == char_uppercase(c),
        is_ascii_char(c) ==> (r <==> 'A' <= c <= 'Z'),
{
    c.is_uppercase()
}

/// Calls `char::is_alphanumeric`; claimed: a function of `c` that holds of every alphabetic
/// character, as its documentation defines it as alphabetic or numeric, and which among ASCII
/// characters holds of the letters and digits alone.
#[verifier::external_body]
fn char_is_alphanumeric(c: char) -> (r: bool)
    ensures
        r == char_alphanumeric(c),
        char_alphabetic(c) ==> r,
        is_ascii_char(c) ==> (r <==> ('a' <= c <= 'z' || 'A' <= c <= 'Z' || '0' <= c <= '9')),
{
    c.is_alphanumeric()
}

/// `char::is_ascii_digit`.
pub open spec fn ascii_digit(c: char) -> bool {
    '0' <= c <= '9'
}

/// `char::is_ascii_hexdigit`.
pub open spec fn ascii_hexdigit(c: char) -> bool {
    ||| '0' <= c <= '9'
    ||| 'a' <= c <= 'f'
    ||| 'A' <= c <= 'F'
}

/// `char::is_ascii_punctuation`.
pub open spec fn ascii_punctuation(c: char) -> bool {
    ||| '!' <= c <= '/'
    ||| ':' <= c <= '@'
    ||| '[' <= c <= '`'
    ||| '{' <= c <= '~'
}

/// The kinds of characters that the grapheme tests below ask about.
pub enum CharClass {
    Whitespace,
    Alphabetic,
    AsciiDigit,
    Lowercase,
    AsciiPunctuation,
    Uppercase,
    Alphanumeric,
    AsciiHexdigit,
}

/// Whether `c` is of the class `k`.
pub open spec fn in_class(k: CharClass, c: char) -> bool {
    match k {
        CharClass::Whitespace => char_whitespace(c),
        CharClass::Alphabetic => char_alphabetic(c),
        CharClass::AsciiDigit => ascii_digit(c),
        CharClass::Lowercase => char_lowercase(c),
        CharClass::AsciiPunctuation => ascii_punctuation(c),
        CharClass::Uppercase => char_uppercase(c),
        CharClass::Alphanumeric => char_alphanumeric(c),
        CharClass::AsciiHexdigit => ascii_hexdigit(c),
    }
}

/// Whether every character of `s` is of the class `k`.
pub open spec fn all_in_class(k: CharClass, s: Seq<char>) -> bool {
    forall|i: int| 0 <= i < s.len() ==> in_class(k, #[trigger] s[i])
}

fn char_in_class(k: &CharClass, c: char) -> (r: bool)
    ensures
        r == in_class(*k, c),
{
    match k {
        CharClass::Whitespace => char_is_whitespace(c),
        CharClass::Alphabetic => char_is_alphabetic(c),
        CharClass::AsciiDigit => '0' <= c && c <= '9',
        CharClass::Lowercase => char_is_lowercase(c),
        CharClass::AsciiPunctuation => ('!' <= c && c <= '/') || (':' <= c && c <= '@') || ('['
            <= c && c <= '`') || ('{' <= c && c <= '~'),
        CharClass::Uppercase => char_is_uppercase(c),
        CharClass::Alphanumeric => char_is_alphanumeric(c),
        CharClass::AsciiHexdigit => ('0' <= c && c <= '9') || ('a' <= c && c <= 'f') || ('A' <= c
            && c <= 'F'),
    }
}

fn all_chars_in_class(k: CharClass, grapheme: &str) -> (r: bool)
    ensures
        r == all_in_class(k, grapheme@),
{
    let n = grapheme.unicode_len();
    let mut i: usize = 0;
    while i < n
        invariant
            n == grapheme@.len(),
            i <= n,
            forall|j: int| 0 <= j < i ==> in_class(k, #[trigger] grapheme@[j]),
        decreases n - i,
    {
        let c = grapheme.get_char(i);
        if !char_in_class(&k, c) {
            return false;
        }
        i = i + 1;
    }
    true
}

pub fn is_whitespace(grapheme: &str) -> (r: bool)
    ensures
        r == all_in_class(CharClass::Whitespace, grapheme@),
{
    all_chars_in_class(CharClass::Whitespace, grapheme)
}

pub fn is_alphabetic(grapheme: &str) -> (r: bool)
    ensures
        r == all_in_class(CharClass::Alphabetic, grapheme@),
{
    all_chars_in_class(CharClass::Alphabetic, grapheme)
}

pub fn is_ascii_digit(grapheme: &str) -> (r: bool)
    ensures
        r == all_in_class(CharClass::AsciiDigit, grapheme@),
{
    all_chars_in_class(CharClass::AsciiDigit, grapheme)
}

pub fn is_lowercase(grapheme: &str) -> (r: bool)
    ensures
        r == all_in_class(CharClass::Lowercase, grapheme@),
{
    all_chars_in_class(CharClass::Lowercase, grapheme)
}

pub fn is_ascii_punctuation(grapheme: &str) -> (r: bool)
    ensures
        r == all_in_class(CharClass::AsciiPunctuation, grapheme@),
{
    all_chars_in_class(CharClass::AsciiPunctuation, grapheme)
}

pub fn is_uppercase(grapheme: &str) -> (r: bool)
    ensures
        r == all_in_class(CharClass::Uppercase, grapheme@),
{
    all_chars_in_class(CharClass::Uppercase, grapheme)
}

pub fn is_alphanumeric(grapheme: &str) -> (r: bool)
    ensures
        r == all_in_class(CharClass::Alphanumeric, grapheme@),
{
    all_chars_in_class(CharClass::Alphanumeric, grapheme)
}

pub fn is_ascii_hexdigit(grapheme: &str) -> (r: bool)
    ensures
        r == all_in_class(CharClass::AsciiHexdigit, grapheme@),
{
    all_chars_in_class(CharClass::AsciiHexdigit, grapheme)
}

} // verus!
