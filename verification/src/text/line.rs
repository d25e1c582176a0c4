use vstd::prelude::*;
use vstd::utf8::*;
use vstd::string::*;
use vstd::std_specs::iter::IteratorSpec;
use super::strs::{
    bytes, string_bytes, boundary, lemma_str_valid, lemma_as_str, sub_str, str_len, push_str,
    clear_string, truncate_string, insert_str_at, drain_range,
};
use super::grapheme::{unicode_next_boundary, unicode_next, char_whitespace, char_is_whitespace};

verus! {

broadcast use vstd::utf8::encode_utf8_valid_utf8;

/// The length in bytes of the text `t`.
pub open spec fn text_len(t: Seq<char>) -> usize {
    encode_utf8(t).len() as usize
}

/// The byte offset at which the grapheme numbered `n` of `t` starts, found by stepping from
/// the start over `n` graphemes with `unicode_segmentation`'s cursor; `None` where the text
/// has fewer graphemes.
pub open spec fn grapheme_offset(t: Seq<char>, n: nat) -> Option<usize>
    decreases n,
{
    if n == 0 {
        Some(0)
    } else {
        match grapheme_offset(t, (n - 1) as nat) {
            Some(p) => unicode_next_boundary(t, p, text_len(t)),
            None => None,
        }
    }
}

/// The start of grapheme `i`, where a count of zero or less means the start of the text.
pub open spec fn offset_of(t: Seq<char>, i: isize) -> Option<usize> {
    if i <= 0 {
        Some(0)
    } else {
        grapheme_offset(t, i as nat)
    }
}

/// How many characters at the start of `t` are white space.
pub open spec fn leading_whitespace(t: Seq<char>) -> nat
    decreases t.len(),
{
    if t.len() > 0 && char_whitespace(t[0]) {
        1 + leading_whitespace(t.drop_first())
    } else {
        0
    }
}

/// Where there are `n` graphemes there are fewer.
pub proof fn lemma_offset_prefix(t: Seq<char>, k: nat, n: nat)
    requires
        k <= n,
        grapheme_offset(t, n) is Some,
    ensures
        grapheme_offset(t, k) is Some,
    decreases n - k,
{
    if k < n {
        lemma_offset_prefix(t, (k + 1) as nat, n);
    }
}

/// Where there are fewer than `k` graphemes there are fewer than any `n` past `k`.
pub proof fn lemma_offset_none_after(t: Seq<char>, k: nat, n: nat)
    requires
        k <= n,
        grapheme_offset(t, k) is None,
    ensures
        grapheme_offset(t, n) is None,
    decreases n - k,
{
    if k < n {
        lemma_offset_none_after(t, (k + 1) as nat, n);
    }
}

/// A line of text with a count of its graphemes that edits keep up to date.
#[derive(Debug)]
pub struct Line {
    text: String,
    len: isize,
}

impl Line {
    /// The characters of the line.
    pub closed spec fn text(&self) -> Seq<char> {
        self.text@
    }

    /// The grapheme count that the line keeps.
    pub closed spec fn count(&self) -> isize {
        self.len
    }

    pub fn new() -> (r: Self)
        ensures
            r.text() == Seq::<char>::empty(),
            r.count() == 0,
    {
        Self { text: String::new(), len: 0 }
    }

    /// Empties the text; the count is left as it is.
    pub fn clear(&mut self)
        ensures
            final(self).text() == Seq::<char>::empty(),
            final(self).count() == old(self).count(),
    {
        clear_string(&mut self.text);
    }

    pub fn len(&self) -> (r: isize)
        ensures
            r == self.count(),
    {
        self.len
    }

    /// The byte offset at which grapheme `i` starts.
    fn get_grapheme_start(&self, i: isize) -> (r: usize)
        requires
            offset_of(self.text(), i) is Some,
        ensures
            offset_of(self.text(), i) == Some(r),
            r <= string_bytes(&self.text).len(),
            boundary(string_bytes(&self.text), r as int),
    {
        let text = self.text.as_str();
        proof {
            lemma_as_str(&self.text, text);
            lemma_str_valid(text);
        }
        let len = str_len(text);
        let mut pos: usize = 0;
        if i <= 0 {
            return 0;
        }
        let mut k: isize = 0;
        while k < i
            invariant
                text@ == self.text(),
                len == bytes(text).len(),
                0 <= k <= i,
                grapheme_offset(text@, i as nat) is Some,
                grapheme_offset(text@, k as nat) == Some(pos),
                pos <= len,
                boundary(bytes(text), pos as int),
            decreases i - k,
        {
            proof {
                lemma_offset_prefix(text@, (k + 1) as nat, i as nat);
            }
            match unicode_next(text, pos, len).0 {
                Some(end) => {
                    pos = end;
                },
                None => {
                    return pos;
                },
            }
            k = k + 1;
        }
        pos
    }

    /// The byte offset at which grapheme `i` starts, or `None` where the line has fewer
    /// graphemes.
    pub fn grapheme_start(&self, i: isize) -> (r: Option<usize>)
        ensures
            r == offset_of(self.text(), i),
            r matches Some(p) ==> p <= encode_utf8(self.text()).len(),
    {
        let text = self.text.as_str();
        proof {
            lemma_as_str(&self.text, text);
            lemma_str_valid(text);
        }
        let len = str_len(text);
        let mut pos: usize = 0;
        if i <= 0 {
            return Some(0);
        }
        let mut k: isize = 0;
        while k < i
            invariant
                text@ == self.text(),
                len == bytes(text).len(),
                0 <= k <= i,
                grapheme_offset(text@, k as nat) == Some(pos),
                pos <= len,
                boundary(bytes(text), pos as int),
            decreases i - k,
        {
            match unicode_next(text, pos, len).0 {
                Some(end) => {
                    pos = end;
                },
                None => {
                    proof {
                        lemma_offset_none_after(text@, (k + 1) as nat, i as nat);
                    }
                    return None;
                },
            }
            k = k + 1;
        }
        Some(pos)
    }

    /// Removes the graphemes numbered `start` up to `end` where the line has them and the
    /// count can take the change, and says whether it did; otherwise leaves the line as it is.
    pub fn try_remove_graphemes(&mut self, start: isize, end: isize) -> (done: bool)
        ensures
            done == (offset_of(old(self).text(), start) matches Some(s) && offset_of(old(self).text(), end) matches Some(
                e,
            ) && s <= e && (if end > start { end - start } else { 0 }) <= isize::MAX && old(self).count() - (
            if end > start { end - start } else { 0 }) >= isize::MIN),
            done ==> encode_utf8(final(self).text()) == encode_utf8(old(self).text()).subrange(
                0,
                offset_of(old(self).text(), start)->0 as int,
            ) + encode_utf8(old(self).text()).subrange(
                offset_of(old(self).text(), end)->0 as int,
                encode_utf8(old(self).text()).len() as int,
            ) && final(self).count() == old(self).count() - (if end > start { end - start } else { 0 }),
            !done ==> final(self).text() == old(self).text() && final(self).count() == old(self).count(),
    {
        let (s, e) = match (self.grapheme_start(start), self.grapheme_start(end)) {
            (Some(s), Some(e)) => (s, e),
            _ => {
                return false;
            },
        };
        let removed: i128 = if end > start { end as i128 - start as i128 } else { 0 };
        if s > e || removed > isize::MAX as i128 || (self.len as i128) - removed < isize::MIN as i128 {
            return false;
        }
        self.remove_graphemes(start, end);
        true
    }

    /// Removes the graphemes numbered `start` up to `end`.
    pub fn remove_graphemes(&mut self, start: isize, end: isize)
        requires
            offset_of(old(self).text(), start) matches Some(s) && offset_of(old(self).text(), end) matches Some(
                e,
            ) && s <= e,
            (if end > start { end - start } else { 0 }) <= isize::MAX,
            old(self).count() - (if end > start { end - start } else { 0 }) >= isize::MIN,
        ensures
            encode_utf8(final(self).text()) == encode_utf8(old(self).text()).subrange(
                0,
                offset_of(old(self).text(), start)->0 as int,
            ) + encode_utf8(old(self).text()).subrange(
                offset_of(old(self).text(), end)->0 as int,
                encode_utf8(old(self).text()).len() as int,
            ),
            final(self).count() == old(self).count() - (if end > start { end - start } else { 0 }),
    {
        let s = self.get_grapheme_start(start);
        let e = self.get_grapheme_start(end);
        drain_range(&mut self.text, s, e);
        let removed: isize = if end > start { (end as i128 - start as i128) as isize } else { 0 };
        self.len = self.len - removed;
    }

    /// Cuts the line before grapheme `i`.
    pub fn truncate_graphemes(&mut self, i: isize)
        requires
            offset_of(old(self).text(), i) is Some,
        ensures
            encode_utf8(final(self).text()) == encode_utf8(old(self).text()).subrange(
                0,
                offset_of(old(self).text(), i)->0 as int,
            ),
            final(self).count() == (if old(self).count() <= i { old(self).count() } else { i }),
    {
        let s = self.get_grapheme_start(i);
        truncate_string(&mut self.text, s);
        if i < self.len {
            self.len = i;
        }
    }

    /// Appends `text`, adding its graphemes to the count.
    pub fn extend(&mut self, text: &str)
        requires
            bytes(text).len() <= isize::MAX,
            old(self).count() + bytes(text).len() <= isize::MAX,
        ensures
            final(self).text() == old(self).text() + text@,
            old(self).count() <= final(self).count(),
            grapheme_offset(text@, (final(self).count() - old(self).count()) as nat) == Some(
                text_len(text@),
            ),
    {
        push_str(&mut self.text, text);
        let n = grapheme_count(text);
        self.len = self.len + n;
    }

    /// Cuts the line before grapheme `i` where the line has that many graphemes, and says
    /// whether it did; otherwise leaves the line as it is.
    pub fn try_truncate_graphemes(&mut self, i: isize) -> (done: bool)
        ensures
            done == offset_of(old(self).text(), i) is Some,
            done ==> encode_utf8(final(self).text()) == encode_utf8(old(self).text()).subrange(
                0,
                offset_of(old(self).text(), i)->0 as int,
            ) && final(self).count() == (if old(self).count() <= i { old(self).count() } else { i }),
            !done ==> final(self).text() == old(self).text() && final(self).count() == old(self).count(),
    {
        if self.grapheme_start(i).is_none() {
            return false;
        }
        self.truncate_graphemes(i);
        true
    }

    /// Inserts `grapheme` before grapheme `i` where the line has that many graphemes and the
    /// count can grow, and says whether it did; otherwise leaves the line as it is.
    pub fn try_insert_grapheme(&mut self, i: isize, grapheme: &str) -> (done: bool)
        ensures
            done == (offset_of(old(self).text(), i) is Some && old(self).count() < isize::MAX),
            done ==> encode_utf8(final(self).text()) == encode_utf8(old(self).text()).subrange(
                0,
                offset_of(old(self).text(), i)->0 as int,
            ) + bytes(grapheme) + encode_utf8(old(self).text()).subrange(
                offset_of(old(self).text(), i)->0 as int,
                encode_utf8(old(self).text()).len() as int,
            ) && final(self).count() == old(self).count() + 1,
            !done ==> final(self).text() == old(self).text() && final(self).count() == old(self).count(),
    {
        if self.grapheme_start(i).is_none() || self.len == isize::MAX {
            return false;
        }
        self.insert_grapheme(i, grapheme);
        true
    }

    /// Inserts `grapheme` before grapheme `i` and counts one grapheme more.
    pub fn insert_grapheme(&mut self, i: isize, grapheme: &str)
        requires
            offset_of(old(self).text(), i) is Some,
            old(self).count() < isize::MAX,
        ensures
            encode_utf8(final(self).text()) == encode_utf8(old(self).text()).subrange(
                0,
                offset_of(old(self).text(), i)->0 as int,
            ) + bytes(grapheme) + encode_utf8(old(self).text()).subrange(
                offset_of(old(self).text(), i)->0 as int,
                encode_utf8(old(self).text()).len() as int,
            ),
            final(self).count() == old(self).count() + 1,
    {
        let s = self.get_grapheme_start(i);
        insert_str_at(&mut self.text, s, grapheme);
        self.len = self.len + 1;
    }

    /// The grapheme numbered `i` (or the first, for `i` zero or less); empty where the
    /// cursor finds no grapheme after its start.
    pub fn grapheme(&self, i: isize) -> (r: &str)
        requires
            offset_of(self.text(), i) is Some,
        ensures
            ({
                let s = offset_of(self.text(), i)->0;
                let b = encode_utf8(self.text());
                bytes(r) == match unicode_next_boundary(self.text(), s, b.len() as usize) {
                    Some(e) => b.subrange(s as int, e as int),
                    None => Seq::<u8>::empty(),
                }
            }),
    {
        let start = self.get_grapheme_start(i);
        let text = self.text.as_str();
        proof {
            lemma_as_str(&self.text, text);
            lemma_str_valid(text);
        }
        match unicode_next(text, start, str_len(text)).0 {
            Some(end) => sub_str(text, start, end),
            None => {
                let empty = "";
                proof {
                    reveal_strlit("");
                    assert(empty@ =~= Seq::<char>::empty());
                    assert(bytes(empty) =~= Seq::<u8>::empty());
                }
                empty
            },
        }
    }

    /// The graphemes numbered `start` up to `end`.
    pub fn slice(&self, start: isize, end: isize) -> (r: &str)
        requires
            offset_of(self.text(), start) is Some,
            offset_of(self.text(), end) is Some,
            offset_of(self.text(), start)->0 <= offset_of(self.text(), end)->0,
        ensures
            bytes(r) == encode_utf8(self.text()).subrange(
                offset_of(self.text(), start)->0 as int,
                offset_of(self.text(), end)->0 as int,
            ),
    {
        let s = self.get_grapheme_start(start);
        let e = self.get_grapheme_start(end);
        let text = self.text.as_str();
        proof {
            lemma_as_str(&self.text, text);
        }
        sub_str(text, s, e)
    }

    /// The graphemes before the one numbered `end`.
    pub fn slice_to(&self, end: isize) -> (r: &str)
        requires
            offset_of(self.text(), end) is Some,
        ensures
            bytes(r) == encode_utf8(self.text()).subrange(0, offset_of(self.text(), end)->0 as int),
    {
        let e = self.get_grapheme_start(end);
        let text = self.text.as_str();
        proof {
            lemma_as_str(&self.text, text);
            lemma_str_valid(text);
        }
        sub_str(text, 0, e)
    }

    /// The graphemes from the one numbered `start` on.
    pub fn slice_from(&self, start: isize) -> (r: &str)
        requires
            offset_of(self.text(), start) is Some,
        ensures
            bytes(r) == encode_utf8(self.text()).subrange(
                offset_of(self.text(), start)->0 as int,
                encode_utf8(self.text()).len() as int,
            ),
    {
        let s = self.get_grapheme_start(start);
        let text = self.text.as_str();
        proof {
            lemma_as_str(&self.text, text);
            lemma_str_valid(text);
        }
        sub_str(text, s, str_len(text))
    }

    /// The whole text of the line.
    pub fn as_str(&self) -> (r: &str)
        ensures
            r@ == self.text(),
    {
        self.text.as_str()
    }

    /// The number of white-space characters the line starts with.
    pub fn get_start(&self) -> (r: isize)
        requires
            self.text().len() <= isize::MAX,
        ensures
            r == leading_whitespace(self.text()),
    {
        let mut chars = self.text.as_str().chars();
        let ghost t = self.text@;
        let mut start: isize = 0;
        loop
            invariant
                t == self.text(),
                0 <= start <= t.len(),
                t.len() <= isize::MAX,
                chars.remaining() == t.skip(start as int),
                leading_whitespace(t) == start + leading_whitespace(t.skip(start as int)),
            decreases t.len() - start,
        {
            proof {
                broadcast use vstd::string::axiom_spec_iter, vstd::string::next_postcondition;
            }
            let ghost rest = t.skip(start as int);
            match chars.next() {
                Some(c) => {
                    assert(rest.len() > 0 && rest[0] == c);
                    if !char_is_whitespace(c) {
                        return start;
                    }
                    proof {
                        assert(t.skip(start as int).drop_first() =~= t.skip(start + 1));
                    }
                    start = start + 1;
                },
                None => {
                    assert(rest.len() == 0);
                    return start;
                },
            }
        }
    }
}

/// The number of graphemes in `text`, counted by stepping over them with
/// `unicode_segmentation`'s cursor.
fn grapheme_count(text: &str) -> (n: isize)
    requires
        bytes(text).len() <= isize::MAX,
    ensures
        0 <= n <= bytes(text).len(),
        grapheme_offset(text@, n as nat) == Some(text_len(text@)),
{
    proof { lemma_str_valid(text); }
    let len = str_len(text);
    let mut pos: usize = 0;
    let mut n: isize = 0;
    while pos < len
        invariant
            len == bytes(text).len(),
            len <= isize::MAX,
            pos <= len,
            0 <= n <= pos,
            grapheme_offset(text@, n as nat) == Some(pos),
            boundary(bytes(text), pos as int),
        decreases len - pos,
    {
        match unicode_next(text, pos, len).0 {
            Some(end) => {
                pos = end;
            },
            None => {
                assert(false);
            },
        }
        n = n + 1;
    }
    n
}

} // verus!
