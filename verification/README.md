# common_mark_rust

A CommonMark Markdown-to-HTML converter whose logic is written and proved in Verus.

`markdown_to_html` reads a document line by line into a tree of blocks (block quotes, lists,
list items, headings, paragraphs, code blocks, HTML blocks, thematic breaks), collects link
reference definitions, parses the inline content of each leaf (code spans, emphasis, links and
images, autolinks, raw HTML, escapes, entities, line breaks) and renders the tree as HTML.

## Layout

- `src/` — the verified library. Each public function states its result in `ensures` over
  spec functions; the `law_*` proof functions state properties that span several calls.
  - `block_structure.rs`: the line-by-line block parse (`check_tree_state`,
    `create_new_block_starts`, `create_block_structure`) and the parsing state.
  - `inline.rs`: the inline parse (`parse_inline`) with its delimiter stack and the
    resolution of emphasis (`process_emphasis`), and HTML for inline content.
  - `ast_types.rs`: the arena tree of blocks and its HTML output.
  - `fake_dll.rs`: the arena-backed doubly linked list that serves as the delimiter stack.
  - `parsers.rs`, `char_class.rs`, `chars.rs`, `entities.rs`, `string_normalize.rs`,
    `lrd_table.rs`, `text.rs`, `peekable_char_indices.rs`, `line_offset_str_collection.rs`,
    `inline_str_collection.rs`: link destinations, titles and labels, character classes,
    escaping and entity references, label normalisation, the table of link definitions, and
    cursors over text.
- `tests/` — tests run against the compiled library.
- `app/` — the command-line program: reads a Markdown file and prints its HTML.
