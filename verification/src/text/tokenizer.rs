use vstd::prelude::*;
use vstd::utf8::*;
use super::strs::{bytes, boundary, str_len};
use super::grapheme::{
    GraphemeCursor, at, grapheme_end, grapheme_bytes, CharClass, all_in_class, is_alphabetic,
    is_alphanumeric, is_single_byte,
};
use super::pattern::{blen, advance, can_step};
use super::trie::Trie;
use super::syntax_highlighter::{text_between, at_boundary};
use super::strs::{lemma_str_valid, sub_str};
use super::grapheme::cursor_next;

verus! {

broadcast use vstd::utf8::encode_utf8_valid_utf8, vstd::utf8::encode_utf8_decode_utf8;

/// The grapheme with bytes `g` is an underscore.
pub open spec fn is_underscore(g: Seq<u8>) -> bool {
    g == seq![0x5Fu8]
}

/// A grapheme that can start an identifier: an underscore or letters only.
pub open spec fn starts_word(g: Seq<u8>) -> bool {
    is_underscore(g) || all_in_class(CharClass::Alphabetic, decode_utf8(g))
}

/// A grapheme that can go on with an identifier: an underscore, or letters and digits only.
pub open spec fn continues_word(g: Seq<u8>) -> bool {
    is_underscore(g) || all_in_class(CharClass::Alphanumeric, decode_utf8(g))
}

/// Where the run of graphemes that go on with an identifier, from `j`, ends.
pub open spec fn word_end(t: Seq<char>, j: usize) -> usize
    decreases blen(t) - j,
{
    if can_step(t, j) && continues_word(grapheme_bytes(t, j)) {
        word_end(t, grapheme_end(t, j))
    } else {
        j
    }
}

/// The identifier that starts at `i`, as its start and end, if one does. At the end of the
/// text this is an empty one, for the empty grapheme there has no character that is no letter.
pub open spec fn identifier_at(t: Seq<char>, i: usize) -> Option<(usize, usize)> {
    if starts_word(grapheme_bytes(t, i)) {
        Some((i, word_end(t, advance(t, i))))
    } else {
        None
    }
}

/// The run of graphemes that go on with an identifier from `j` ends no earlier than `j`, and
/// where it ends the text ends or the grapheme there does not go on with an identifier.
pub proof fn lemma_word_end(t: Seq<char>, j: usize)
    ensures
        j <= word_end(t, j),
        !(can_step(t, word_end(t, j)) && continues_word(grapheme_bytes(t, word_end(t, j)))),
    decreases blen(t) - j,
{
    if can_step(t, j) && continues_word(grapheme_bytes(t, j)) {
        lemma_word_end(t, grapheme_end(t, j));
    }
}

/// An underscore starts an identifier: where the byte at `i` is `_`, an identifier starts at
/// `i`, takes in at least the underscore, and runs on until the text ends or a grapheme comes
/// that cannot go on with an identifier.
pub proof fn law_underscore_starts_identifier(t: Seq<char>, i: usize)
    requires
        i < blen(t) <= usize::MAX,
        encode_utf8(t)[i as int] == 0x5Fu8,
    ensures
        identifier_at(t, i) matches Some((s, e)) && s == i && i < e && !(can_step(t, e) && continues_word(
            grapheme_bytes(t, e),
        )),
        grapheme_bytes(t, i) == seq![0x5Fu8],
{
    assert(cursor_next(t, i, encode_utf8(t).len() as usize) == Some((i + 1) as usize));
    assert(grapheme_end(t, i) == i + 1);
    assert(grapheme_bytes(t, i) =~= seq![0x5Fu8]);
    assert(advance(t, i) == i + 1);
    lemma_word_end(t, (i + 1) as usize);
}

/// The identifiers of `t` from `i` on: at each place an identifier where one starts, else
/// the grapheme there is passed over.
pub open spec fn line_words(t: Seq<char>, i: usize) -> Set<Seq<char>>
    decreases blen(t) - i,
{
    if i < blen(t) {
        match identifier_at(t, i) {
            Some((s, e)) => if i < e <= blen(t) {
                line_words(t, e).insert(text_between(t, s, e))
            } else {
                Set::empty()
            },
            None => if can_step(t, i) {
                line_words(t, grapheme_end(t, i))
            } else {
                Set::empty()
            },
        }
    } else {
        Set::empty()
    }
}

/// The identifiers of all of `texts`.
pub open spec fn lines_words(texts: Seq<Seq<char>>) -> Set<Seq<char>>
    decreases texts.len(),
{
    if texts.len() == 0 {
        Set::empty()
    } else {
        lines_words(texts.drop_last()).union(line_words(texts.last(), 0))
    }
}

/// Keeps the identifiers of a document, for completing words.
pub struct Tokenizer {
    tokens: Trie,
}

impl Tokenizer {
    /// A tokenizer that has read nothing yet.
    pub fn new() -> (r: Self)
        ensures
            r.tokens_view() == Set::<Seq<char>>::empty(),
    {
        Self { tokens: Trie::new() }
    }

    /// The identifiers the tokenizer holds.
    pub closed spec fn tokens_view(&self) -> Set<Seq<char>> {
        self.tokens@
    }

    /// Whether the tokenizer has read lines, so that its trie has a root.
    pub closed spec fn ready(&self) -> bool {
        self.tokens.has_root()
    }

    /// Replaces what the tokenizer holds with the identifiers of `lines`.
    pub fn tokenize(&mut self, lines: &[String])
        ensures
            final(self).tokens_view() == lines_words(lines@.map_values(|l: String| l@)),
            final(self).ready(),
    {
        self.tokens.clear();
        let ghost texts = lines@.map_values(|l: String| l@);
        let mut y: usize = 0;
        proof {
            assert(texts.subrange(0, 0) =~= Seq::<Seq<char>>::empty());
        }
        while y < lines.len()
            invariant
                texts == lines@.map_values(|l: String| l@),
                y <= lines@.len(),
                self.tokens.has_root(),
                self.tokens@ == lines_words(texts.subrange(0, y as int)),
            decreases lines@.len() - y,
        {
            let line = lines[y].as_str();
            proof {
                lemma_str_valid(line);
                assert(line@ == texts[y as int]);
            }
            let len = str_len(line);
            let ghost before = self.tokens@;
            let mut grapheme_cursor = GraphemeCursor::new(0, len);
            while grapheme_cursor.index() < len
                invariant
                    len == bytes(line).len(),
                    grapheme_cursor.spec_len() == len,
                    at_boundary(line, grapheme_cursor.spec_index()),
                    self.tokens.has_root(),
                    before.union(line_words(line@, 0)) == self.tokens@.union(line_words(line@, grapheme_cursor.spec_index())),
                decreases len - grapheme_cursor.spec_index(),
            {
                let i = grapheme_cursor.index();
                match Self::tokenize_identifier(line, &mut grapheme_cursor) {
                    Some((start, end)) => {
                        let token = sub_str(line, start, end);
                        let ghost words = self.tokens@;
                        self.tokens.insert(token);
                        proof {
                            assert(token@ == text_between(line@, start, end));
                            assert(words.union(line_words(line@, i)) =~= self.tokens@.union(line_words(line@, end)));
                        }
                    },
                    None => {
                        grapheme_cursor.next_boundary(line);
                        proof {
                            assert(grapheme_cursor.spec_index() == grapheme_end(line@, i));
                        }
                    },
                }
            }
            proof {
                assert(line_words(line@, grapheme_cursor.spec_index()) =~= Set::<Seq<char>>::empty());
                let pre = texts.subrange(0, y + 1);
                assert(pre.drop_last() =~= texts.subrange(0, y as int));
                assert(self.tokens@ =~= lines_words(pre));
            }
            y = y + 1;
        }
        proof {
            assert(texts.subrange(0, y as int) =~= texts);
        }
    }

    /// The identifiers the tokenizer holds.
    pub fn tokens(&self) -> (r: &Trie)
        ensures
            r@ == self.tokens_view(),
            r.has_root() == self.ready(),
    {
        &self.tokens
    }

    /// Reads the identifier at the cursor, moving the cursor past it, and returns its bounds;
    /// where none starts there, returns `None` and leaves the cursor.
    pub fn tokenize_identifier(line: &str, grapheme_cursor: &mut GraphemeCursor) -> (r: Option<(usize, usize)>)
    requires
        old(grapheme_cursor).spec_len() == bytes(line).len(),
        old(grapheme_cursor).spec_index() <= bytes(line).len(),
        boundary(bytes(line), old(grapheme_cursor).spec_index() as int),
    ensures
        r == identifier_at(line@, old(grapheme_cursor).spec_index()),
        final(grapheme_cursor).spec_len() == old(grapheme_cursor).spec_len(),
        final(grapheme_cursor).spec_index() == match r {
            Some((_, e)) => e,
            None => old(grapheme_cursor).spec_index(),
        },
        r matches Some((s, e)) ==> s <= e <= bytes(line).len() && boundary(bytes(line), e as int)
            && (s < bytes(line).len() ==> s < e),
{
    let len = str_len(line);
    let start = grapheme_cursor.index();
    let start_grapheme = at(start, line);
    if !is_single_byte(start_grapheme, 0x5F) && !is_alphabetic(start_grapheme) {
        return None;
    }
    grapheme_cursor.next_boundary(line);
    assert(grapheme_cursor.spec_index() == advance(line@, start));
    while grapheme_cursor.index() < len
        invariant
            len == bytes(line).len(),
            grapheme_cursor.spec_len() == len,
            start <= grapheme_cursor.spec_index() <= len,
            start < len ==> start < grapheme_cursor.spec_index(),
            boundary(bytes(line), grapheme_cursor.spec_index() as int),
            word_end(line@, advance(line@, start)) == word_end(line@, grapheme_cursor.spec_index()),
        ensures
            word_end(line@, advance(line@, start)) == grapheme_cursor.spec_index(),
        decreases len - grapheme_cursor.spec_index(),
    {
        let index = grapheme_cursor.index();
        let grapheme = at(index, line);
        if !is_single_byte(grapheme, 0x5F) && !is_alphanumeric(grapheme) {
            break;
        }
        grapheme_cursor.next_boundary(line);
    }
    Some((start, grapheme_cursor.index()))
}
}

} // verus!
