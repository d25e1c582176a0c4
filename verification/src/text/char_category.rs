use vstd::prelude::*;
use super::grapheme::{self, CharClass, all_in_class};
use super::strs::bytes;

verus! {

#[derive(Clone, Copy, PartialEq, Eq, Debug, Structural)]
pub enum GraphemeCategory {
    Identifier,
    Symbol,
    Space,
    Newline,
}

/// The category of a grapheme: a line feed, white space, part of an identifier (`_` or
/// alphanumeric), or a symbol.
pub open spec fn category_of(g: &str) -> GraphemeCategory {
    if bytes(g) == seq![0x0Au8] {
        GraphemeCategory::Newline
    } else if all_in_class(CharClass::Whitespace, g@) {
        GraphemeCategory::Space
    } else if bytes(g) == seq![0x5Fu8] || all_in_class(CharClass::Alphanumeric, g@) {
        GraphemeCategory::Identifier
    } else {
        GraphemeCategory::Symbol
    }
}

impl GraphemeCategory {
    pub fn new(grapheme: &str) -> (r: GraphemeCategory)
        ensures
            r == category_of(grapheme),
    {
        if grapheme::is_single_byte(grapheme, 0x0A) {
            GraphemeCategory::Newline
        } else if grapheme::is_whitespace(grapheme) {
            GraphemeCategory::Space
        } else if grapheme::is_single_byte(grapheme, 0x5F) || grapheme::is_alphanumeric(grapheme) {
            GraphemeCategory::Identifier
        } else {
            GraphemeCategory::Symbol
        }
    }
}

} // verus!
