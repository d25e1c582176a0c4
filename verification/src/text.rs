pub mod strs;
pub mod grapheme;
pub mod pattern;
pub mod diff;
pub mod action_history;
pub mod char_category;
pub mod compare;
pub mod cursor;
pub mod cursor_index;
pub mod grapheme_category;
pub mod selection;
pub mod line;
pub mod line_pool;
pub mod syntax_highlighter;
pub mod utf32;
pub mod tokenizer;
pub mod syntax;
pub mod trie;
pub mod doc;
