# editor_text

The text core of a code editor, written in Verus: every function in `src/` carries a
contract, and Verus proves each body against it.

- `src/position.rs`: positions in a document and their order.
- `src/text/`: strings and graphemes (`strs`, `grapheme`, `utf32`), documents (`doc`, `line`,
  `line_pool`), searching and matching (`pattern`, `compare`, `trie`, `tokenizer`), syntax
  highlighting (`syntax`, `syntax_highlighter`), line diffs (`diff`), cursors and selections.
  A document keeps its cursors: edits move them, and typing, pasting, copying, commenting,
  indenting and selecting work at every cursor. A list of edits is worked out on a scratch
  copy and carried over line by line through a diff.
- `src/ui/`: lists with a focused item (`focus_list`, `result_list`), lists with stable ids
  (`slot_list`), colors, and the editor's history of cursor places.
- `src/theme.rs`: the colors of highlight kinds.
- `tests/`: tests run against the compiled library.
- `app/`: serde support for reading colors, patterns and syntax tokens from configuration
  data, converting to and from the library's types, reading and writing a document's file,
  and the history of actions, whose grouping goes by float timestamps.

Grapheme boundaries come from `unicode-segmentation`, called through a few trusted wrappers
in `src/text/grapheme.rs` whose contracts state what the crate's documentation promises.
