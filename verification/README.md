# lazyfinder

A verified core for a fast file and content search tool.

- `src/` is the library, proved with Verus:
  - `search` — byte search over buffers (first and last occurrence of a byte, byte
    counts, non-overlapping substring occurrences), backed by `memchr`;
  - `pattern` — regular expressions, backed by `regex`; what a pattern matches is a
    named result of the crate;
  - `text` — characters, containment, replacement, splitting, lines and joining;
  - `style` — painting a match green, backed by `colored`;
  - `utils` — the context around a match, its line number, and width-limited display;
  - `scanner` — the search engine: which files and directories take part, and every
    match of a file with its line number, shown text and highlight;
  - `sensitive` — the built-in audit of hard-coded secrets;
  - `ui` — the live view's layout, shortened paths and the window of recent matches;
  - `cli` — prefixes, keys and context width from the command line;
  - the crate root — the line-oriented search of a single file.
- `app/` is the program around it: arguments, the directory walk, memory-mapped files,
  the terminal view and the log file.
- `tests/` runs the library on concrete inputs.
