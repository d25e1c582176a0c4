use vstd::prelude::*;
use vstd::utf8::*;
use super::grapheme::{self, CharClass, all_in_class};
use super::strs::bytes;

verus! {

broadcast use vstd::utf8::encode_utf8_decode_utf8;

#[derive(Clone, Copy, PartialEq, Eq, Debug, Structural)]
pub enum GraphemeCategory {
    Identifier,
    Symbol,
    Space,
    Newline,
}

/// The category of the grapheme with bytes `g`: a line feed, white space, part of an
/// identifier (`_` or alphanumeric), or a symbol.
pub open spec fn grapheme_category_of(g: Seq<u8>) -> GraphemeCategory {
    if g == seq![0x0Au8] {
        GraphemeCategory::Newline
    } else if all_in_class(CharClass::Whitespace, decode_utf8(g)) {
        GraphemeCategory::Space
    } else if g == seq![0x5Fu8] || all_in_class(CharClass::Alphanumeric, decode_utf8(g)) {
        GraphemeCategory::Identifier
    } else {
        GraphemeCategory::Symbol
    }
}

impl GraphemeCategory {
    pub fn new(grapheme: &str) -> (r: Self)
        ensures
            r == grapheme_category_of(bytes(grapheme)),
    {
        proof {
            assert(decode_utf8(bytes(grapheme)) == grapheme@);
        }
        if grapheme::is_single_byte(grapheme, 0x0A) {
            GraphemeCategory::Newline
        } else if grapheme::is_whitespace(grapheme) {
            GraphemeCategory::Space
        } else if grapheme::is_single_byte(grapheme, 0x5F) || grapheme::is_alphanumeric(grapheme) {
            GraphemeCategory::Identifier
        } else {
            GraphemeCategory::Symbol
        }
    }
}

} // verus!
