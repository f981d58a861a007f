# lontar

The verified core of Lontar, a local-first knowledge base that reads and
writes plain Markdown files in an Obsidian-compatible vault (wikilinks,
YAML frontmatter, tags, folders).

`src/` is the library, verified with Verus:

- `text`, `path` — character-level string and path operations, each
  specified over `Seq<char>`.
- `markdown`, `frontmatter`, `note` — the note grammar: wikilinks, inline
  tags, headings and slugs, fenced code, frontmatter; a note's metadata.
- `index`, `index_laws` — the vault index (notes, graph edges, backlinks,
  tag index), its operations and the properties they keep.
- `search` — tag storage, hit selection, excerpt mark-up and suggestions
  around the full-text index.
- `watcher` — classification, coalescing and flushing of file-system
  changes.
- `vault`, `commands`, `os_error` — the vault lock's decisions, path
  sanitising, ISO dates, command errors and payloads.

`app/` holds what runs around it: file and directory I/O, the lock file,
the Tantivy index, the notify watcher and the command handlers.
