# md2notion

Converts markdown documents into Notion API block objects.

- `src/markdown.rs` — the markdown events the converter reads, and how a
  document becomes events through pulldown-cmark.
- `src/parser.rs` — the converter: events to blocks, with its model.
- `src/notion.rs` — the Notion block types and their models.
- `src/laws.rs` — properties proved of every conversion.
- `app/` — a command-line watcher that prints the blocks of a markdown file as
  JSON whenever the file changes.
