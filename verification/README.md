# simpler_notes

A plain-text notes vault: Markdown notes that link to each other with
`[[wiki-links]]`, carry `@tags` and `!DD.MM.YYYY` dates, and are indexed,
searched and checked for broken or ambiguous links. The vault is served to
tools over JSON-RPC on standard input and output.

- `src/` is the library, verified with Verus: the note grammar and the
  Markdown constructs that hide it, the editing buffer, the tag, date and
  link indexes, link diagnostics, the query language, message framing, the
  tool dispatcher and its tools, the editor windows' state machines and the
  preview (Markdown parsed by comrak, then read into drawn nodes). Each public function states what
  it returns or changes; the laws that relate several functions are public
  proof functions named `law_*`.
- `app/` is the program around it: reading and writing files, the folder
  watcher, the git repository, ripgrep, JSON (de)coding
  and the server loop.
- `tests/` runs the library on concrete values.
