# mdparse

A verified tokeniser and parser for a small markdown dialect.

- `src/block_tokeniser.rs` splits a document into blocks, line by line: headings,
  fenced code blocks, bullet lists, ordered lists, custom blocks (`::: name`) with
  properties, and paragraphs.
- `src/inline_tokeniser.rs` splits inline text into tokens by longest match.
- `src/inline_parser.rs` reads tokens into inline elements: bold, italic,
  hyperlinks, wikilinks, images and backslash escapes.
- `src/props.rs` holds the property map of custom blocks.
- `src/text.rs` holds the character and string helpers.
- `app/` reads and writes files.

Each public function states its result exactly, over spec functions that define the
grammar; the proof functions in the same files state the laws that hold of it.
