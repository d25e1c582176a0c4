use vstd::prelude::*;
use super::pattern::Pattern;
use super::syntax_highlighter::HighlightKind;

verus! {

/// A pattern whose matches are highlighted as `kind`.
#[derive(Debug)]
pub struct SyntaxToken {
    pub pattern: Pattern,
    pub kind: HighlightKind,
}

/// A stretch from a match of `start` to a match of `end`, possibly over several lines, in
/// which `escape` makes the grapheme after it plain.
#[derive(Debug)]
pub struct SyntaxRange {
    pub start: Pattern,
    pub end: Pattern,
    pub escape: Option<char>,
    pub kind: HighlightKind,
}

/// How a language is highlighted: its keywords, its tokens and its ranges, tried in order,
/// and whether other identifiers are highlighted too.
#[derive(Debug)]
pub struct Syntax {
    pub keywords: Vec<String>,
    pub tokens: Vec<SyntaxToken>,
    pub ranges: Vec<SyntaxRange>,
    pub has_identifiers: bool,
}

/// Whether `w` is one of the syntax's keywords.
pub open spec fn is_keyword(syntax: &Syntax, w: Seq<char>) -> bool {
    exists|k: int| 0 <= k < syntax.keywords@.len() && (#[trigger] syntax.keywords@[k])@ == w
}

impl Syntax {
    /// Whether `word` is one of the keywords.
    pub fn has_keyword(&self, word: &str) -> (r: bool)
        ensures
            r == is_keyword(self, word@),
    {
        let mut k: usize = 0;
        while k < self.keywords.len()
            invariant
                k <= self.keywords@.len(),
                forall|j: int| 0 <= j < k ==> (#[trigger] self.keywords@[j])@ != word@,
            decreases self.keywords@.len() - k,
        {
            if super::strs::str_eq(self.keywords[k].as_str(), word) {
                return true;
            }
            k = k + 1;
        }
        false
    }
}

} // verus!
