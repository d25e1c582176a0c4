use vstd::prelude::*;
use vstd::utf8::*;
use super::strs::{bytes, boundary, lemma_str_valid, str_len, str_eq};
use super::grapheme::{
    GraphemeCursor, at, get, grapheme_end, grapheme_bytes, CharClass, all_in_class, is_alphabetic,
    is_ascii_digit, is_lowercase, is_ascii_punctuation, is_whitespace, is_uppercase,
    is_alphanumeric, is_ascii_hexdigit,
};

verus! {

broadcast use vstd::utf8::encode_utf8_valid_utf8, vstd::utf8::encode_utf8_decode_utf8;

/// Where a pattern matched: the capture if there is one, else the whole match.
#[derive(Debug, Clone, Copy, PartialEq, Eq, Structural)]
pub struct PatternMatch {
    pub start: usize,
    pub end: usize,
}

/// A match of some of a pattern's parts: the capture bounds seen, and where it ended.
#[derive(Debug, Clone, Copy)]
pub struct PartialPatternMatch {
    pub capture_start: Option<usize>,
    pub capture_end: Option<usize>,
    pub end: usize,
}

/// `a` if it is there, else `b`.
pub open spec fn or_else(a: Option<usize>, b: Option<usize>) -> Option<usize> {
    match a {
        Some(x) => Some(x),
        None => b,
    }
}

/// The match `p`, with the captures found before it taking precedence.
pub open spec fn combined(p: PartialPatternMatch, capture_start: Option<usize>, capture_end: Option<usize>) -> PartialPatternMatch {
    PartialPatternMatch {
        capture_start: or_else(capture_start, p.capture_start),
        capture_end: or_else(capture_end, p.capture_end),
        end: p.end,
    }
}

impl PartialPatternMatch {
    pub fn combine_with_existing_capture(
        &self,
        capture_start: Option<usize>,
        capture_end: Option<usize>,
    ) -> (r: Self)
        ensures
            r == combined(*self, capture_start, capture_end),
    {
        Self {
            capture_start: match capture_start {
                Some(x) => Some(x),
                None => self.capture_start,
            },
            capture_end: match capture_end {
                Some(x) => Some(x),
                None => self.capture_end,
            },
            end: self.end,
        }
    }
}

#[derive(Debug, Clone, Copy)]
pub enum PatternModifier {
    OneOrMore,  // +
    ZeroOrMoreGreedy,  // *
    ZeroOrMoreFrugal,  // -
    ZeroOrOne,  // ?
}

#[derive(Debug, Clone, Copy)]
pub enum PatternLiteral {
    /// The grapheme of the pattern's code that starts at this byte offset.
    Grapheme(usize),
    Any,  // %.
    Letter,  // %a
    Digit,  // %d
    LowerCaseLetter,  // %l
    Punctuation,  // %p
    Whitespace,  // %s
    UpperCaseLetter,  // %u
    Alphanumeric,  // %w
    HexadecimalDigit,  // %x
}

#[derive(Debug)]
pub enum PatternPart {
    CaptureStart,  // (
    CaptureEnd,  // )
    Literal(PatternLiteral),
    Class(Vec<PatternLiteral>, bool),  // [] or [^]
    Modifier(PatternModifier),
}

/// A pattern part with its class as a sequence.
pub enum PartView {
    CaptureStart,
    CaptureEnd,
    Literal(PatternLiteral),
    Class(Seq<PatternLiteral>, bool),
    Modifier(PatternModifier),
}

impl View for PatternPart {
    type V = PartView;

    open spec fn view(&self) -> PartView {
        match self {
            PatternPart::CaptureStart => PartView::CaptureStart,
            PatternPart::CaptureEnd => PartView::CaptureEnd,
            PatternPart::Literal(l) => PartView::Literal(*l),
            PatternPart::Class(ls, p) => PartView::Class(ls@, *p),
            PatternPart::Modifier(m) => PartView::Modifier(*m),
        }
    }
}

/// The views of a sequence of parts.
pub open spec fn part_views(s: Seq<PatternPart>) -> Seq<PartView> {
    s.map_values(|p: PatternPart| p@)
}

#[derive(Debug)]
pub struct Pattern {
    code: String,
    parts: Vec<PatternPart>,
}

/* What a pattern means. */

/// The UTF-8 length of a character sequence.
pub open spec fn blen(t: Seq<char>) -> int {
    encode_utf8(t).len() as int
}

/// The position after the grapheme at `i`, or `i` at the end.
pub open spec fn advance(t: Seq<char>, i: usize) -> usize {
    if i < blen(t) {
        grapheme_end(t, i)
    } else {
        i
    }
}

/// Whether a step from `i` moves forward within the text.
pub open spec fn can_step(t: Seq<char>, i: usize) -> bool {
    i < blen(t) && i < grapheme_end(t, i) <= blen(t)
}

/// Whether the grapheme with bytes `g` is matched by `lit` of the pattern with code `code`.
pub open spec fn literal_matches(code: Seq<char>, g: Seq<u8>, lit: PatternLiteral) -> bool {
    match lit {
        PatternLiteral::Grapheme(sel) => g == grapheme_bytes(code, sel),
        PatternLiteral::Any => true,
        PatternLiteral::Letter => all_in_class(CharClass::Alphabetic, decode_utf8(g)),
        PatternLiteral::Digit => all_in_class(CharClass::AsciiDigit, decode_utf8(g)),
        PatternLiteral::LowerCaseLetter => all_in_class(CharClass::Lowercase, decode_utf8(g)),
        PatternLiteral::Punctuation => all_in_class(CharClass::AsciiPunctuation, decode_utf8(g)),
        PatternLiteral::Whitespace => all_in_class(CharClass::Whitespace, decode_utf8(g)),
        PatternLiteral::UpperCaseLetter => all_in_class(CharClass::Uppercase, decode_utf8(g)),
        PatternLiteral::Alphanumeric => all_in_class(CharClass::Alphanumeric, decode_utf8(g)),
        PatternLiteral::HexadecimalDigit => all_in_class(CharClass::AsciiHexdigit, decode_utf8(g)),
    }
}

/// Whether one of the literals of a class matches the grapheme with bytes `g`.
pub open spec fn class_has_match(code: Seq<char>, g: Seq<u8>, lits: Seq<PatternLiteral>) -> bool {
    exists|k: int| 0 <= k < lits.len() && literal_matches(code, g, #[trigger] lits[k])
}

/// Whether a literal or class part matches at `i` of `t`. A negative class matches the end.
pub open spec fn part_matches(code: Seq<char>, t: Seq<char>, i: usize, part: PartView) -> bool {
    match part {
        PartView::Literal(l) => i < blen(t) && literal_matches(code, grapheme_bytes(t, i), l),
        PartView::Class(ls, positive) => if i < blen(t) {
            class_has_match(code, grapheme_bytes(t, i), ls) == positive
        } else {
            !positive
        },
        _ => false,
    }
}

/// Matching `parts` at `start` of `t`.
pub open spec fn match_parts_spec(code: Seq<char>, t: Seq<char>, parts: Seq<PartView>, start: usize) -> Option<PartialPatternMatch>
    decreases parts.len(), 4nat, 0nat,
{
    match_loop_spec(code, t, parts, 0, start, None, None)
}

/// Matching `parts` from the part `k` on, at `i`, with the captures seen so far.
pub open spec fn match_loop_spec(
    code: Seq<char>,
    t: Seq<char>,
    parts: Seq<PartView>,
    k: int,
    i: usize,
    cs: Option<usize>,
    ce: Option<usize>,
) -> Option<PartialPatternMatch>
    decreases parts.len(), 3nat, (parts.len() - k) as nat,
{
    if k < 0 || k >= parts.len() {
        Some(PartialPatternMatch { capture_start: cs, capture_end: ce, end: i })
    } else {
        match parts[k] {
            PartView::CaptureStart => match_loop_spec(code, t, parts, k + 1, i, Some(i), ce),
            PartView::CaptureEnd => match_loop_spec(code, t, parts, k + 1, i, cs, Some(i)),
            PartView::Modifier(m) => if k + 1 < parts.len() {
                match modifier_spec(code, t, m, parts[k + 1], parts.subrange(k + 2, parts.len() as int), i) {
                    Some(p) => Some(combined(p, cs, ce)),
                    None => None,
                }
            } else {
                None
            },
            _ => if part_matches(code, t, i, parts[k]) {
                match_loop_spec(code, t, parts, k + 1, advance(t, i), cs, ce)
            } else {
                None
            },
        }
    }
}

/// Matching a modified part, then the parts after it.
pub open spec fn modifier_spec(
    code: Seq<char>,
    t: Seq<char>,
    m: PatternModifier,
    next: PartView,
    rem: Seq<PartView>,
    i: usize,
) -> Option<PartialPatternMatch>
    decreases rem.len() + 1, 2nat, 0nat,
{
    match m {
        PatternModifier::OneOrMore => if part_matches(code, t, i, next) {
            greedy_spec(code, t, next, rem, advance(t, i), None)
        } else {
            None
        },
        PatternModifier::ZeroOrMoreGreedy => greedy_spec(code, t, next, rem, i, None),
        PatternModifier::ZeroOrMoreFrugal => frugal_spec(code, t, next, rem, i),
        PatternModifier::ZeroOrOne => {
            let pm = match_parts_spec(code, t, rem, i);
            if part_matches(code, t, i, next) {
                match match_parts_spec(code, t, rem, advance(t, i)) {
                    Some(p) => Some(p),
                    None => pm,
                }
            } else {
                pm
            }
        },
    }
}

/// The last match of the remaining parts over the longest run of `next` from `i`.
pub open spec fn greedy_spec(
    code: Seq<char>,
    t: Seq<char>,
    next: PartView,
    rem: Seq<PartView>,
    i: usize,
    pm: Option<PartialPatternMatch>,
) -> Option<PartialPatternMatch>
    decreases rem.len() + 1, 1nat, (blen(t) - i) as nat,
{
    let pm2 = match match_parts_spec(code, t, rem, i) {
        Some(p) => Some(p),
        None => pm,
    };
    if part_matches(code, t, i, next) && can_step(t, i) {
        greedy_spec(code, t, next, rem, grapheme_end(t, i), pm2)
    } else {
        pm2
    }
}

/// The first match of the remaining parts along the run of `next` from `i`.
pub open spec fn frugal_spec(
    code: Seq<char>,
    t: Seq<char>,
    next: PartView,
    rem: Seq<PartView>,
    i: usize,
) -> Option<PartialPatternMatch>
    decreases rem.len() + 1, 1nat, (blen(t) - i) as nat,
{
    match match_parts_spec(code, t, rem, i) {
        Some(p) => Some(p),
        None => if part_matches(code, t, i, next) && can_step(t, i) {
            frugal_spec(code, t, next, rem, grapheme_end(t, i))
        } else {
            None
        },
    }
}

/// A position of `t` at or after `lo` that starts a grapheme's bytes or ends the text.
pub open spec fn within(t: Seq<char>, lo: usize, x: usize) -> bool {
    lo <= x <= blen(t) && boundary(encode_utf8(t), x as int)
}

/// Every position a partial match reports lies `within` the text from `lo`.
pub open spec fn pm_within(t: Seq<char>, lo: usize, p: PartialPatternMatch) -> bool {
    &&& within(t, lo, p.end)
    &&& p.capture_start matches Some(s) ==> within(t, lo, s)
    &&& p.capture_end matches Some(e) ==> within(t, lo, e)
}

/// What `match_text` reports for a match of all parts.
pub open spec fn to_pattern_match(p: Option<PartialPatternMatch>, start: usize) -> Option<PatternMatch> {
    match p {
        Some(p) => Some(PatternMatch {
            start: match p.capture_start { Some(s) => s, None => start },
            end: match p.capture_end { Some(e) => e, None => p.end },
        }),
        None => None,
    }
}

/// A literal that names a grapheme of the code names a whole one.
pub open spec fn literal_wf(code: Seq<char>, l: PatternLiteral) -> bool {
    l matches PatternLiteral::Grapheme(sel) ==> sel < blen(code) && boundary(encode_utf8(code), sel as int)
}

/// Every modifier is followed by the part it modifies, and every literal names a
/// grapheme of the code.
pub open spec fn parts_wf(code: Seq<char>, parts: Seq<PartView>) -> bool {
    forall|k: int| 0 <= k < parts.len() ==> part_wf(code, parts, k)
}

/// The literals of a part name graphemes of the code.
pub open spec fn part_literals_wf(code: Seq<char>, p: PartView) -> bool {
    match p {
        PartView::Literal(l) => literal_wf(code, l),
        PartView::Class(ls, _) => literals_wf(code, ls),
        _ => true,
    }
}

/// Every literal of a class names a grapheme of the code.
pub open spec fn literals_wf(code: Seq<char>, ls: Seq<PatternLiteral>) -> bool {
    forall|j: int| 0 <= j < ls.len() ==> literal_wf(code, #[trigger] ls[j])
}

/// The part `k` of `parts` is well formed.
pub open spec fn part_wf(code: Seq<char>, parts: Seq<PartView>, k: int) -> bool {
    match parts[k] {
        PartView::Modifier(_) => k + 1 < parts.len(),
        _ => part_literals_wf(code, parts[k]),
    }
}

/// A suffix of well-formed parts is well formed.
pub proof fn lemma_parts_wf_suffix(code: Seq<char>, parts: Seq<PartView>, a: int)
    requires
        parts_wf(code, parts),
        0 <= a <= parts.len(),
    ensures
        parts_wf(code, parts.subrange(a, parts.len() as int)),
{
    let s = parts.subrange(a, parts.len() as int);
    assert forall|k: int| 0 <= k < s.len() implies part_wf(code, s, k) by {
        assert(part_wf(code, parts, k + a));
        assert(s[k] == parts[k + a]);
        if k + 1 < s.len() {
            assert(s[k + 1] == parts[k + a + 1]);
        }
    }
}

/// Moves one grapheme forward from `i`, staying at the end.
fn step(text: &str, len: usize, i: usize) -> (r: usize)
    requires
        len == bytes(text).len(),
        i <= len,
        boundary(bytes(text), i as int),
    ensures
        r == advance(text@, i),
        i <= r <= len,
        boundary(bytes(text), r as int),
        i < len ==> can_step(text@, i) && r == grapheme_end(text@, i),
{
    let mut c = GraphemeCursor::new(i, len);
    c.next_boundary(text);
    c.index()
}

impl Pattern {
    /// The pattern's source.
    pub closed spec fn code_view(&self) -> Seq<char> {
        self.code@
    }

    /// The parsed parts.
    pub closed spec fn parts_view(&self) -> Seq<PartView> {
        part_views(self.parts@)
    }

    #[verifier::type_invariant]
    closed spec fn wf(&self) -> bool {
        parts_wf(self.code@, part_views(self.parts@))
    }

    /// Matches the pattern against `text` from byte `start`.
    pub fn match_text(&self, text: &str, start: usize) -> (r: Option<PatternMatch>)
        requires
            start <= bytes(text).len(),
            boundary(bytes(text), start as int),
        ensures
            r == to_pattern_match(
                match_parts_spec(self.code_view(), text@, self.parts_view(), start),
                start,
            ),
            r matches Some(m) ==> within(text@, start, m.start) && within(text@, start, m.end),
    {
        proof {
            use_type_invariant(self);
        }
        let partial_pattern_match = self.match_parts(text, self.parts.as_slice(), start);
        match partial_pattern_match {
            Some(p) => Some(PatternMatch {
                start: match p.capture_start {
                    Some(s) => s,
                    None => start,
                },
                end: match p.capture_end {
                    Some(e) => e,
                    None => p.end,
                },
            }),
            None => None,
        }
    }

    fn match_parts(&self, text: &str, parts: &[PatternPart], start: usize) -> (r: Option<
        PartialPatternMatch,
    >)
        requires
            parts_wf(self.code@, part_views(parts@)),
            parts_wf(self.code@, part_views(self.parts@)),
            start <= bytes(text).len(),
            boundary(bytes(text), start as int),
        ensures
            r == match_parts_spec(self.code@, text@, part_views(parts@), start),
            r matches Some(p) ==> pm_within(text@, start, p),
        decreases parts@.len(), 4nat,
    {
        let len = str_len(text);
        let ghost pv = part_views(parts@);
        let ghost code = self.code@;
        let mut i = start;
        let mut capture_start: Option<usize> = None;
        let mut capture_end: Option<usize> = None;
        let mut part_index: usize = 0;
        while part_index < parts.len()
            invariant
                len == bytes(text).len(),
                pv == part_views(parts@),
                code == self.code@,
                parts_wf(code, pv),
                parts_wf(self.code@, part_views(self.parts@)),
                part_index <= parts@.len(),
                within(text@, start, i),
                capture_start matches Some(x) ==> within(text@, start, x),
                capture_end matches Some(x) ==> within(text@, start, x),
                match_loop_spec(code, text@, pv, part_index as int, i, capture_start, capture_end)
                    == match_parts_spec(code, text@, pv, start),
            decreases parts@.len() - part_index,
        {
            let part = &parts[part_index];
            assert(pv[part_index as int] == part@);
            assert(part_wf(code, pv, part_index as int));
            match part {
                PatternPart::CaptureStart => {
                    capture_start = Some(i);
                },
                PatternPart::CaptureEnd => {
                    capture_end = Some(i);
                },
                PatternPart::Modifier(modifier) => {
                    let next_part = &parts[part_index + 1];
                    let remaining_parts = &parts[part_index + 2..parts.len()];
                    proof {
                        assert(pv[part_index + 1] == next_part@);
                        assert(part_wf(code, pv, part_index + 1));
                        assert(part_views(remaining_parts@) =~= pv.subrange(
                            part_index + 2,
                            pv.len() as int,
                        ));
                        lemma_parts_wf_suffix(code, pv, part_index + 2);
                    }
                    let r = self.match_modifier(text, modifier, next_part, remaining_parts, i);
                    return match r {
                        Some(pattern_match) => Some(
                            pattern_match.combine_with_existing_capture(capture_start, capture_end),
                        ),
                        None => None,
                    };
                },
                _ => {
                    if self.match_literal_or_class(text, i, part) {
                        i = step(text, len, i);
                    } else {
                        return None;
                    }
                },
            }
            part_index = part_index + 1;
        }
        Some(PartialPatternMatch { capture_start, capture_end, end: i })
    }

    fn match_modifier(
        &self,
        text: &str,
        modifier: &PatternModifier,
        next_part: &PatternPart,
        remaining_parts: &[PatternPart],
        start: usize,
    ) -> (r: Option<PartialPatternMatch>)
        requires
            part_literals_wf(self.code@, next_part@),
            parts_wf(self.code@, part_views(remaining_parts@)),
            parts_wf(self.code@, part_views(self.parts@)),
            start <= bytes(text).len(),
            boundary(bytes(text), start as int),
        ensures
            r == modifier_spec(self.code@, text@, *modifier, next_part@, part_views(remaining_parts@), start),
            r matches Some(p) ==> pm_within(text@, start, p),
        decreases remaining_parts@.len() + 1, 3nat,
    {
        match modifier {
            PatternModifier::OneOrMore => self.match_modifier_one_or_more(
                text,
                next_part,
                remaining_parts,
                start,
            ),
            PatternModifier::ZeroOrMoreGreedy => self.match_modifier_zero_or_more_greedy(
                text,
                next_part,
                remaining_parts,
                start,
            ),
            PatternModifier::ZeroOrMoreFrugal => self.match_modifier_zero_or_more_frugal(
                text,
                next_part,
                remaining_parts,
                start,
            ),
            PatternModifier::ZeroOrOne => self.match_modifier_zero_or_one(
                text,
                next_part,
                remaining_parts,
                start,
            ),
        }
    }

    fn match_modifier_one_or_more(
        &self,
        text: &str,
        next_part: &PatternPart,
        remaining_parts: &[PatternPart],
        start: usize,
    ) -> (r: Option<PartialPatternMatch>)
        requires
            part_literals_wf(self.code@, next_part@),
            parts_wf(self.code@, part_views(remaining_parts@)),
            parts_wf(self.code@, part_views(self.parts@)),
            start <= bytes(text).len(),
            boundary(bytes(text), start as int),
        ensures
            r == modifier_spec(
                self.code@,
                text@,
                PatternModifier::OneOrMore,
                next_part@,
                part_views(remaining_parts@),
                start,
            ),
            r matches Some(p) ==> pm_within(text@, start, p),
        decreases remaining_parts@.len() + 1, 2nat,
    {
        if !self.match_literal_or_class(text, start, next_part) {
            return None;
        }
        let len = str_len(text);
        let i = step(text, len, start);
        self.match_modifier_zero_or_more_greedy(text, next_part, remaining_parts, i)
    }

    fn match_modifier_zero_or_more_greedy(
        &self,
        text: &str,
        next_part: &PatternPart,
        remaining_parts: &[PatternPart],
        start: usize,
    ) -> (r: Option<PartialPatternMatch>)
        requires
            part_literals_wf(self.code@, next_part@),
            parts_wf(self.code@, part_views(remaining_parts@)),
            parts_wf(self.code@, part_views(self.parts@)),
            start <= bytes(text).len(),
            boundary(bytes(text), start as int),
        ensures
            r == greedy_spec(self.code@, text@, next_part@, part_views(remaining_parts@), start, None),
            r matches Some(p) ==> pm_within(text@, start, p),
        decreases remaining_parts@.len() + 1, 1nat,
    {
        let len = str_len(text);
        let ghost code = self.code@;
        let ghost rem = part_views(remaining_parts@);
        let mut i = start;
        let mut pattern_match: Option<PartialPatternMatch> = None;
        loop
            invariant
                len == bytes(text).len(),
                code == self.code@,
                rem == part_views(remaining_parts@),
                    part_literals_wf(self.code@, next_part@),
                parts_wf(self.code@, rem),
                parts_wf(self.code@, part_views(self.parts@)),
                within(text@, start, i),
                greedy_spec(code, text@, next_part@, rem, start, None) == greedy_spec(
                    code,
                    text@,
                    next_part@,
                    rem,
                    i,
                    pattern_match,
                ),
                pattern_match matches Some(p) ==> pm_within(text@, start, p),
            ensures
                pattern_match == greedy_spec(code, text@, next_part@, rem, start, None),
                pattern_match matches Some(p) ==> pm_within(text@, start, p),
            decreases len - i,
        {
            let r = self.match_parts(text, remaining_parts, i);
            let next_match = match r {
                Some(p) => Some(p),
                None => pattern_match,
            };
            if self.match_literal_or_class(text, i, next_part) && i < len {
                i = step(text, len, i);
                pattern_match = next_match;
            } else {
                pattern_match = next_match;
                break;
            }
        }
        pattern_match
    }

    fn match_modifier_zero_or_more_frugal(
        &self,
        text: &str,
        next_part: &PatternPart,
        remaining_parts: &[PatternPart],
        start: usize,
    ) -> (r: Option<PartialPatternMatch>)
        requires
            part_literals_wf(self.code@, next_part@),
            parts_wf(self.code@, part_views(remaining_parts@)),
            parts_wf(self.code@, part_views(self.parts@)),
            start <= bytes(text).len(),
            boundary(bytes(text), start as int),
        ensures
            r == frugal_spec(self.code@, text@, next_part@, part_views(remaining_parts@), start),
            r matches Some(p) ==> pm_within(text@, start, p),
        decreases remaining_parts@.len() + 1, 1nat,
    {
        let len = str_len(text);
        let ghost code = self.code@;
        let ghost rem = part_views(remaining_parts@);
        let mut i = start;
        loop
            invariant
                len == bytes(text).len(),
                code == self.code@,
                rem == part_views(remaining_parts@),
                    part_literals_wf(self.code@, next_part@),
                parts_wf(self.code@, rem),
                parts_wf(self.code@, part_views(self.parts@)),
                within(text@, start, i),
                frugal_spec(code, text@, next_part@, rem, start) == frugal_spec(
                    code,
                    text@,
                    next_part@,
                    rem,
                    i,
                ),
            decreases len - i,
        {
            let r = self.match_parts(text, remaining_parts, i);
            if r.is_some() {
                return r;
            }
            if self.match_literal_or_class(text, i, next_part) && i < len {
                i = step(text, len, i);
            } else {
                return None;
            }
        }
    }

    fn match_modifier_zero_or_one(
        &self,
        text: &str,
        next_part: &PatternPart,
        remaining_parts: &[PatternPart],
        start: usize,
    ) -> (r: Option<PartialPatternMatch>)
        requires
            part_literals_wf(self.code@, next_part@),
            parts_wf(self.code@, part_views(remaining_parts@)),
            parts_wf(self.code@, part_views(self.parts@)),
            start <= bytes(text).len(),
            boundary(bytes(text), start as int),
        ensures
            r == modifier_spec(
                self.code@,
                text@,
                PatternModifier::ZeroOrOne,
                next_part@,
                part_views(remaining_parts@),
                start,
            ),
            r matches Some(p) ==> pm_within(text@, start, p),
        decreases remaining_parts@.len() + 1, 1nat,
    {
        let mut pattern_match = self.match_parts(text, remaining_parts, start);
        if self.match_literal_or_class(text, start, next_part) {
            let len = str_len(text);
            let i = step(text, len, start);
            let r = self.match_parts(text, remaining_parts, i);
            if r.is_some() {
                pattern_match = r;
            }
        }
        pattern_match
    }

    fn match_literal_or_class(&self, text: &str, grapheme_selection: usize, part: &PatternPart) -> (r: bool)
        requires
            part_literals_wf(self.code@, part@),
            grapheme_selection <= bytes(text).len(),
            boundary(bytes(text), grapheme_selection as int),
        ensures
            r == part_matches(self.code@, text@, grapheme_selection, part@),
    {
        match part {
            PatternPart::Literal(literal) => {
                let Some(grapheme) = get(grapheme_selection, text) else {
                    return false;
                };
                self.match_literal(grapheme, literal)
            },
            PatternPart::Class(literals, is_positive) => {
                let Some(grapheme) = get(grapheme_selection, text) else {
                    return !*is_positive;
                };
                let ghost g = bytes(grapheme);
                proof {
                    assert(part@ is Class);
                    assert(part@ == PartView::Class(literals@, *is_positive));
                    assert(literals_wf(self.code@, literals@));
                }
                let mut has_match = false;
                let mut k: usize = 0;
                while k < literals.len() && !has_match
                    invariant
                        part_literals_wf(self.code@, part@),
                        part@ == PartView::Class(literals@, *is_positive),
                        g == bytes(grapheme),
                        literals_wf(self.code@, literals@),
                        k <= literals@.len(),
                        has_match <==> class_has_match(self.code@, g, literals@.subrange(0, k as int)),
                    decreases literals@.len() - k,
                {
                    assert(literal_wf(self.code@, literals@[k as int]));
                    let m = self.match_literal(grapheme, &literals[k]);
                    proof {
                        let s0 = literals@.subrange(0, k as int);
                        let s1 = literals@.subrange(0, k + 1);
                        assert(s1[k as int] == literals@[k as int]);
                        if class_has_match(self.code@, g, s0) {
                            let j = choose|j: int| 0 <= j < s0.len() && literal_matches(self.code@, g, #[trigger] s0[j]);
                            assert(s1[j] == s0[j]);
                        }
                        if class_has_match(self.code@, g, s1) && !m {
                            let j = choose|j: int| 0 <= j < s1.len() && literal_matches(self.code@, g, #[trigger] s1[j]);
                            assert(s0[j] == s1[j]);
                        }
                    }
                    has_match = m;
                    k = k + 1;
                }
                proof {
                    let ls = literals@;
                    if has_match {
                        let j = choose|j: int| 0 <= j < k && literal_matches(self.code@, g, #[trigger] ls.subrange(0, k as int)[j]);
                        assert(ls.subrange(0, k as int)[j] == ls[j]);
                    } else {
                        assert(ls.subrange(0, k as int) =~= ls);
                    }
                }
                has_match == *is_positive
            },
            _ => false,
        }
    }

    fn match_literal(&self, grapheme: &str, literal: &PatternLiteral) -> (r: bool)
        requires
            literal_wf(self.code@, *literal),
        ensures
            r == literal_matches(self.code@, bytes(grapheme), *literal),
    {
        match literal {
            PatternLiteral::Grapheme(literal_grapheme_selection) => {
                let code = self.code.as_str();
                proof {
                    lemma_str_valid(code);
                }
                str_eq(grapheme, at(*literal_grapheme_selection, code))
            },
            PatternLiteral::Any => true,
            PatternLiteral::Letter => is_alphabetic(grapheme),
            PatternLiteral::Digit => is_ascii_digit(grapheme),
            PatternLiteral::LowerCaseLetter => is_lowercase(grapheme),
            PatternLiteral::Punctuation => is_ascii_punctuation(grapheme),
            PatternLiteral::Whitespace => is_whitespace(grapheme),
            PatternLiteral::UpperCaseLetter => is_uppercase(grapheme),
            PatternLiteral::Alphanumeric => is_alphanumeric(grapheme),
            PatternLiteral::HexadecimalDigit => is_ascii_hexdigit(grapheme),
        }
    }
}

/* Parsing. */

/// Why a pattern's code is refused.
#[derive(Debug, Clone, Copy, PartialEq, Eq, Structural)]
pub enum ParseFailure {
    OnlyOneCapture,
    MismatchedCaptureEnd,
    ModifierWithoutTarget,
    UnterminatedClass,
    UnterminatedCapture,
    TrailingEscape,
}

/// The message `Pattern::parse` gives for a failure.
pub open spec fn parse_error_message(f: ParseFailure) -> &'static str {
    match f {
        ParseFailure::OnlyOneCapture => "only one capture is allowed",
        ParseFailure::MismatchedCaptureEnd => "mismatched capture end",
        ParseFailure::ModifierWithoutTarget => "modifier must follow a literal or a class",
        ParseFailure::UnterminatedClass => "unterminated class",
        ParseFailure::UnterminatedCapture => "unterminated capture",
        ParseFailure::TrailingEscape => "expected another character after an escape character",
    }
}

/// Whether the grapheme of `code` at `i` is the single byte `b`.
pub open spec fn is1(code: Seq<char>, i: usize, b: u8) -> bool {
    grapheme_bytes(code, i) == seq![b]
}

/// The literal that an escaped grapheme stands for.
pub open spec fn escaped_literal(code: Seq<char>, i: usize) -> PatternLiteral {
    if is1(code, i, 0x2E) {
        PatternLiteral::Any
    } else if is1(code, i, 0x61) {
        PatternLiteral::Letter
    } else if is1(code, i, 0x64) {
        PatternLiteral::Digit
    } else if is1(code, i, 0x6C) {
        PatternLiteral::LowerCaseLetter
    } else if is1(code, i, 0x70) {
        PatternLiteral::Punctuation
    } else if is1(code, i, 0x73) {
        PatternLiteral::Whitespace
    } else if is1(code, i, 0x75) {
        PatternLiteral::UpperCaseLetter
    } else if is1(code, i, 0x77) {
        PatternLiteral::Alphanumeric
    } else if is1(code, i, 0x78) {
        PatternLiteral::HexadecimalDigit
    } else {
        PatternLiteral::Grapheme(i)
    }
}

/// The modifier a grapheme stands for, if any.
pub open spec fn modifier_of(code: Seq<char>, i: usize) -> Option<PatternModifier> {
    if is1(code, i, 0x2B) {
        Some(PatternModifier::OneOrMore)
    } else if is1(code, i, 0x2A) {
        Some(PatternModifier::ZeroOrMoreGreedy)
    } else if is1(code, i, 0x2D) {
        Some(PatternModifier::ZeroOrMoreFrugal)
    } else if is1(code, i, 0x3F) {
        Some(PatternModifier::ZeroOrOne)
    } else {
        None
    }
}

/// Parsing a class from byte `i` on (just after its `[`): its literals, whether it is
/// positive, and where its `]` stands. A `^` right after `[` makes the class negative.
pub open spec fn parse_class_spec(
    code: Seq<char>,
    i: usize,
    class: Seq<PatternLiteral>,
    escaped: bool,
    positive: bool,
    first: bool,
) -> Option<(Seq<PatternLiteral>, bool, usize)>
    decreases (blen(code) - i) as nat,
{
    if !can_step(code, i) {
        None
    } else {
        let n = grapheme_end(code, i);
        if first && is1(code, i, 0x5E) {
            parse_class_spec(code, n, class, escaped, false, false)
        } else if escaped {
            parse_class_spec(code, n, class.push(escaped_literal(code, i)), false, positive, false)
        } else if is1(code, i, 0x25) {
            parse_class_spec(code, n, class, true, positive, false)
        } else if is1(code, i, 0x5D) {
            Some((class, positive, i))
        } else {
            parse_class_spec(code, n, class.push(PatternLiteral::Grapheme(i)), false, positive, false)
        }
    }
}

/// Whether a part can take a modifier.
pub open spec fn is_chars(p: PartView) -> bool {
    p is Literal || p is Class
}

/// Parsing the code from byte `i` on, with the parts so far and the state of the parser.
pub open spec fn parse_spec(
    code: Seq<char>,
    i: usize,
    parts: Seq<PartView>,
    cs: bool,
    ce: bool,
    escaped: bool,
) -> Result<Seq<PartView>, ParseFailure>
    decreases (blen(code) - i) as nat,
{
    if !can_step(code, i) {
        if cs && !ce {
            Err(ParseFailure::UnterminatedCapture)
        } else if escaped {
            Err(ParseFailure::TrailingEscape)
        } else {
            Ok(parts)
        }
    } else {
        let n = grapheme_end(code, i);
        if escaped {
            parse_spec(code, n, parts.push(PartView::Literal(escaped_literal(code, i))), cs, ce, false)
        } else if is1(code, i, 0x25) {
            parse_spec(code, n, parts, cs, ce, true)
        } else if is1(code, i, 0x28) {
            if cs {
                Err(ParseFailure::OnlyOneCapture)
            } else {
                parse_spec(code, n, parts.push(PartView::CaptureStart), true, ce, false)
            }
        } else if is1(code, i, 0x29) {
            if !cs || ce {
                Err(ParseFailure::MismatchedCaptureEnd)
            } else {
                parse_spec(code, n, parts.push(PartView::CaptureEnd), cs, true, false)
            }
        } else if modifier_of(code, i) is Some {
            if parts.len() == 0 || !is_chars(parts.last()) {
                Err(ParseFailure::ModifierWithoutTarget)
            } else {
                parse_spec(
                    code,
                    n,
                    parts.drop_last().push(PartView::Modifier(modifier_of(code, i)->0)).push(parts.last()),
                    cs,
                    ce,
                    false,
                )
            }
        } else if is1(code, i, 0x5B) {
            match parse_class_spec(code, n, Seq::empty(), false, true, true) {
                None => Err(ParseFailure::UnterminatedClass),
                Some((class, positive, j)) => if i < j && can_step(code, j) {
                    parse_spec(code, grapheme_end(code, j), parts.push(PartView::Class(class, positive)), cs, ce, false)
                } else {
                    Ok(parts)
                },
            }
        } else {
            parse_spec(code, n, parts.push(PartView::Literal(PatternLiteral::Grapheme(i))), cs, ce, false)
        }
    }
}

/// Whether the grapheme `g` is the single byte `b`.
fn grapheme_is(g: &str, b: u8) -> (r: bool)
    ensures
        r == (bytes(g) == seq![b]),
{
    let x = g.as_bytes();
    let r = x.len() == 1 && x[0] == b;
    proof {
        if r {
            assert(x@ =~= seq![b]);
        }
    }
    r
}

impl Pattern {
    /// Parses a pattern. `%` escapes the next grapheme (`%a`, `%d`, `%l`, `%p`, `%s`, `%u`,
    /// `%w`, `%x` and `%.` are classes of characters), `( )` mark the capture, `[ ]` a class
    /// (`[^ ]` a negative one), and `+ * - ?` modify what precedes them.
    pub fn parse(code: String) -> (r: Result<Self, &'static str>)
        ensures
            match r {
                Ok(p) => parse_spec(code@, 0, Seq::empty(), false, false, false) == Ok::<Seq<PartView>, ParseFailure>(p.parts_view())
                    && p.code_view() == code@,
                Err(m) => exists|f: ParseFailure|
                    parse_spec(code@, 0, Seq::empty(), false, false, false) == Err::<Seq<PartView>, ParseFailure>(f)
                        && m == parse_error_message(f),
            },
    {
        let mut parts: Vec<PatternPart> = Vec::new();
        let mut has_capture_start = false;
        let mut has_capture_end = false;
        let mut is_escaped = false;
        let c = code.as_str();
        let len = str_len(c);
        proof {
            lemma_str_valid(c);
            assert(part_views(parts@) =~= Seq::<PartView>::empty());
        }
        let mut grapheme_selector = GraphemeCursor::new(0, len);
        while grapheme_selector.index() < len
            invariant
                c@ == code@,
                len == bytes(c).len(),
                grapheme_selector.spec_len() == len,
                grapheme_selector.spec_index() <= len,
                boundary(bytes(c), grapheme_selector.spec_index() as int),
                parts_wf(code@, part_views(parts@)),
                parse_spec(code@, grapheme_selector.spec_index(), part_views(parts@), has_capture_start, has_capture_end, is_escaped)
                    == parse_spec(code@, 0, Seq::empty(), false, false, false),
            decreases len - grapheme_selector.spec_index(),
        {
            let sel = grapheme_selector.index();
            let grapheme = at(sel, c);
            let ghost pv = part_views(parts@);
            let ghost n = grapheme_end(code@, sel);
            assert(can_step(code@, sel));
            if is_escaped {
                is_escaped = false;
                let literal = Self::get_escaped_literal(c, sel);
                parts.push(PatternPart::Literal(literal));
                proof {
                    assert(part_views(parts@) =~= pv.push(PartView::Literal(literal)));
                    assert(part_wf(code@, part_views(parts@), pv.len() as int));
                    assert forall|k: int| 0 <= k < pv.len() implies part_wf(code@, part_views(parts@), k) by {
                        assert(part_wf(code@, pv, k));
                    }
                }
                grapheme_selector.next_boundary(c);
                continue;
            }
            if grapheme_is(grapheme, 0x25) {
                is_escaped = true;
            } else if grapheme_is(grapheme, 0x28) {
                if has_capture_start {
                    proof {
                        assert(parse_spec(code@, 0, Seq::empty(), false, false, false) == Err::<Seq<PartView>, ParseFailure>(ParseFailure::OnlyOneCapture));
                        assert("only one capture is allowed" == parse_error_message(ParseFailure::OnlyOneCapture));
                    }
                    return Err("only one capture is allowed");
                }
                has_capture_start = true;
                parts.push(PatternPart::CaptureStart);
                proof {
                    assert(part_views(parts@) =~= pv.push(PartView::CaptureStart));
                    assert forall|k: int| 0 <= k < pv.len() implies part_wf(code@, part_views(parts@), k) by {
                        assert(part_wf(code@, pv, k));
                    }
                }
            } else if grapheme_is(grapheme, 0x29) {
                if !has_capture_start || has_capture_end {
                    proof {
                        assert(parse_spec(code@, 0, Seq::empty(), false, false, false) == Err::<Seq<PartView>, ParseFailure>(ParseFailure::MismatchedCaptureEnd));
                        assert("mismatched capture end" == parse_error_message(ParseFailure::MismatchedCaptureEnd));
                    }
                    return Err("mismatched capture end");
                }
                has_capture_end = true;
                parts.push(PatternPart::CaptureEnd);
                proof {
                    assert(part_views(parts@) =~= pv.push(PartView::CaptureEnd));
                    assert forall|k: int| 0 <= k < pv.len() implies part_wf(code@, part_views(parts@), k) by {
                        assert(part_wf(code@, pv, k));
                    }
                }
            } else if grapheme_is(grapheme, 0x2B) || grapheme_is(grapheme, 0x2A) || grapheme_is(grapheme, 0x2D)
                || grapheme_is(grapheme, 0x3F) {
                let modifier = if grapheme_is(grapheme, 0x2B) {
                    PatternModifier::OneOrMore
                } else if grapheme_is(grapheme, 0x2A) {
                    PatternModifier::ZeroOrMoreGreedy
                } else if grapheme_is(grapheme, 0x2D) {
                    PatternModifier::ZeroOrMoreFrugal
                } else {
                    PatternModifier::ZeroOrOne
                };
                let is_after_chars = match parts.last() {
                    Some(PatternPart::Literal(..)) => true,
                    Some(PatternPart::Class(..)) => true,
                    _ => false,
                };
                if !is_after_chars {
                    proof {
                        assert(parse_spec(code@, 0, Seq::empty(), false, false, false) == Err::<Seq<PartView>, ParseFailure>(ParseFailure::ModifierWithoutTarget));
                        assert("modifier must follow a literal or a class" == parse_error_message(ParseFailure::ModifierWithoutTarget));
                    }
                    return Err("modifier must follow a literal or a class");
                }
                let modified = parts.pop().unwrap();
                parts.push(PatternPart::Modifier(modifier));
                parts.push(modified);
                proof {
                    assert(part_views(parts@) =~= pv.drop_last().push(PartView::Modifier(modifier)).push(pv.last()));
                    let q = part_views(parts@);
                    assert forall|k: int| 0 <= k < q.len() implies part_wf(code@, q, k) by {
                        if k < pv.len() - 1 {
                            assert(part_wf(code@, pv, k));
                            assert(q[k] == pv[k]);
                        } else if k == pv.len() {
                            assert(part_wf(code@, pv, pv.len() - 1));
                        }
                    }
                }
            } else if grapheme_is(grapheme, 0x5B) {
                let (class, is_positive) = match Self::parse_class(c, &mut grapheme_selector) {
                    Ok(x) => x,
                    Err(e) => {
                        return Err(e);
                    },
                };
                parts.push(PatternPart::Class(class, is_positive));
                proof {
                    assert(part_views(parts@) =~= pv.push(PartView::Class(class@, is_positive)));
                    assert(part_wf(code@, part_views(parts@), pv.len() as int));
                    assert forall|k: int| 0 <= k < pv.len() implies part_wf(code@, part_views(parts@), k) by {
                        assert(part_wf(code@, pv, k));
                    }
                }
            } else {
                parts.push(PatternPart::Literal(PatternLiteral::Grapheme(sel)));
                proof {
                    assert(part_views(parts@) =~= pv.push(PartView::Literal(PatternLiteral::Grapheme(sel))));
                    assert(part_wf(code@, part_views(parts@), pv.len() as int));
                    assert forall|k: int| 0 <= k < pv.len() implies part_wf(code@, part_views(parts@), k) by {
                        assert(part_wf(code@, pv, k));
                    }
                }
            }
            grapheme_selector.next_boundary(c);
        }
        if has_capture_start && !has_capture_end {
            proof {
                        assert(parse_spec(code@, 0, Seq::empty(), false, false, false) == Err::<Seq<PartView>, ParseFailure>(ParseFailure::UnterminatedCapture));
                        assert("unterminated capture" == parse_error_message(ParseFailure::UnterminatedCapture));
                    }
                    return Err("unterminated capture");
        }
        if is_escaped {
            proof {
                        assert(parse_spec(code@, 0, Seq::empty(), false, false, false) == Err::<Seq<PartView>, ParseFailure>(ParseFailure::TrailingEscape));
                        assert("expected another character after an escape character" == parse_error_message(ParseFailure::TrailingEscape));
                    }
                    return Err("expected another character after an escape character");
        }
        Ok(Self { code, parts })
    }

    fn parse_class(code: &str, grapheme_selector: &mut GraphemeCursor) -> (r: Result<(Vec<PatternLiteral>, bool), &'static str>)
        requires
            old(grapheme_selector).spec_len() == bytes(code).len(),
            old(grapheme_selector).spec_index() < bytes(code).len(),
            boundary(bytes(code), old(grapheme_selector).spec_index() as int),
        ensures
            final(grapheme_selector).spec_len() == old(grapheme_selector).spec_len(),
            match r {
                Ok((class, positive)) => parse_class_spec(
                    code@,
                    grapheme_end(code@, old(grapheme_selector).spec_index()),
                    Seq::empty(),
                    false,
                    true,
                    true,
                ) == Some((class@, positive, final(grapheme_selector).spec_index()))
                    && old(grapheme_selector).spec_index() < final(grapheme_selector).spec_index()
                    && final(grapheme_selector).spec_index() < bytes(code).len()
                    && boundary(bytes(code), final(grapheme_selector).spec_index() as int)
                    && literals_wf(code@, class@),
                Err(m) => parse_class_spec(
                    code@,
                    grapheme_end(code@, old(grapheme_selector).spec_index()),
                    Seq::empty(),
                    false,
                    true,
                    true,
                ) is None && m == parse_error_message(ParseFailure::UnterminatedClass),
            },
    {
        let len = str_len(code);
        let ghost start = grapheme_selector.spec_index();
        grapheme_selector.next_boundary(code);
        let mut class: Vec<PatternLiteral> = Vec::new();
        let mut is_escaped = false;
        let mut is_positive = true;
        let mut is_first = true;
        proof {
            assert(class@ =~= Seq::<PatternLiteral>::empty());
        }
        while grapheme_selector.index() < len
            invariant
                len == bytes(code).len(),
                grapheme_selector.spec_len() == len,
                old(grapheme_selector).spec_len() == len,
                start == old(grapheme_selector).spec_index(),
                start < grapheme_selector.spec_index() <= len,
                boundary(bytes(code), grapheme_selector.spec_index() as int),
                literals_wf(code@, class@),
                parse_class_spec(code@, grapheme_selector.spec_index(), class@, is_escaped, is_positive, is_first)
                    == parse_class_spec(code@, grapheme_end(code@, start), Seq::empty(), false, true, true),
            decreases len - grapheme_selector.spec_index(),
        {
            let sel = grapheme_selector.index();
            let grapheme = at(sel, code);
            assert(can_step(code@, sel));
            if is_first && grapheme_is(grapheme, 0x5E) {
                is_positive = false;
                is_first = false;
                grapheme_selector.next_boundary(code);
                continue;
            }
            is_first = false;
            if is_escaped {
                is_escaped = false;
                let ghost old_class = class@;
                let literal = Self::get_escaped_literal(code, sel);
                class.push(literal);
                proof {
                    assert(class@ == old_class.push(literal));
                    assert forall|j: int| 0 <= j < class@.len() implies literal_wf(code@, #[trigger] class@[j]) by {
                        if j < old_class.len() {
                            assert(class@[j] == old_class[j]);
                        }
                    }
                }
                grapheme_selector.next_boundary(code);
                continue;
            }
            if grapheme_is(grapheme, 0x25) {
                is_escaped = true;
            } else if grapheme_is(grapheme, 0x5D) {
                return Ok((class, is_positive));
            } else {
                let ghost old_class = class@;
                class.push(PatternLiteral::Grapheme(sel));
                proof {
                    assert forall|j: int| 0 <= j < class@.len() implies literal_wf(code@, #[trigger] class@[j]) by {
                        if j < old_class.len() {
                            assert(class@[j] == old_class[j]);
                        }
                    }
                }
            }
            grapheme_selector.next_boundary(code);
        }
        Err("unterminated class")
    }

    fn get_escaped_literal(code: &str, grapheme_selection: usize) -> (r: PatternLiteral)
        requires
            grapheme_selection < bytes(code).len(),
            boundary(bytes(code), grapheme_selection as int),
        ensures
            r == escaped_literal(code@, grapheme_selection),
            literal_wf(code@, r),
    {
        let grapheme = at(grapheme_selection, code);
        if grapheme_is(grapheme, 0x2E) {
            PatternLiteral::Any
        } else if grapheme_is(grapheme, 0x61) {
            PatternLiteral::Letter
        } else if grapheme_is(grapheme, 0x64) {
            PatternLiteral::Digit
        } else if grapheme_is(grapheme, 0x6C) {
            PatternLiteral::LowerCaseLetter
        } else if grapheme_is(grapheme, 0x70) {
            PatternLiteral::Punctuation
        } else if grapheme_is(grapheme, 0x73) {
            PatternLiteral::Whitespace
        } else if grapheme_is(grapheme, 0x75) {
            PatternLiteral::UpperCaseLetter
        } else if grapheme_is(grapheme, 0x77) {
            PatternLiteral::Alphanumeric
        } else if grapheme_is(grapheme, 0x78) {
            PatternLiteral::HexadecimalDigit
        } else {
            PatternLiteral::Grapheme(grapheme_selection)
        }
    }
}

/// A part made optional by `?` is taken when it can be: where the part matches the grapheme
/// at `i` and the parts after it match from the next grapheme, the match is that one; only
/// where that fails is the part left out and the parts after it matched at `i`. This holds
/// wherever in a pattern the `?` stands, with the captures seen before it.
pub proof fn law_optional_part_is_greedy(
    code: Seq<char>,
    t: Seq<char>,
    parts: Seq<PartView>,
    k: int,
    i: usize,
    cs: Option<usize>,
    ce: Option<usize>,
)
    requires
        0 <= k,
        k + 1 < parts.len(),
        parts[k] == PartView::Modifier(PatternModifier::ZeroOrOne),
    ensures
        ({
            let next = parts[k + 1];
            let rest = parts.subrange(k + 2, parts.len() as int);
            let taken = match_parts_spec(code, t, rest, advance(t, i));
            let skipped = match_parts_spec(code, t, rest, i);
            &&& part_matches(code, t, i, next) && taken is Some ==> match_loop_spec(code, t, parts, k, i, cs, ce)
                == Some(combined(taken->0, cs, ce))
            &&& !(part_matches(code, t, i, next) && taken is Some) ==> match_loop_spec(code, t, parts, k, i, cs, ce)
                == match skipped {
                Some(p) => Some(combined(p, cs, ce)),
                None => None,
            }
        }),
{
    let next = parts[k + 1];
    let rest = parts.subrange(k + 2, parts.len() as int);
    assert(match_loop_spec(code, t, parts, k, i, cs, ce) == match modifier_spec(
        code,
        t,
        PatternModifier::ZeroOrOne,
        next,
        rest,
        i,
    ) {
        Some(p) => Some(combined(p, cs, ce)),
        None => None,
    });
}

/// The same for a pattern that starts with an optional part, as `match_text` matches it.
pub proof fn law_leading_optional_part_is_greedy(code: Seq<char>, t: Seq<char>, parts: Seq<PartView>, i: usize)
    requires
        parts.len() >= 2,
        parts[0] == PartView::Modifier(PatternModifier::ZeroOrOne),
    ensures
        ({
            let taken = match_parts_spec(code, t, parts.subrange(2, parts.len() as int), advance(t, i));
            part_matches(code, t, i, parts[1]) && taken is Some ==> match_parts_spec(code, t, parts, i) == Some(
                combined(taken->0, None, None),
            )
        }),
{
    law_optional_part_is_greedy(code, t, parts, 0, i, None, None);
}

} // verus!
