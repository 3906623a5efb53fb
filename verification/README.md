# yadr

Finds Y-Statement architecture decision records (`YADR:` statements) in the comments of
Rust, Python, Nix and TypeScript sources, parses them into their seven fields, a free-form
tail and a dated change log, and writes them back out.

The library under `src/` is written in Verus and proved against its contracts:

- `text`, `date`, `error`, `report`: characters, dates, errors and their wording.
- `grammar`: the shape of a statement's paragraphs, read as a template of connectors and
  fields, with the choice of fields that the template prescribes.
- `statement`, `block`, `yadr`: statements in a comment, the tail and change log of a
  statement, and `YAdr` itself (`parse`, `tidy`, `to_string`, `listing_line`).
- `rust_comments`, `ts_comments`, `ts_query`, `scan`: comment blocks from `ra_ap_syntax`
  and `tree-sitter`, and the statements they hold (`find_all`).
- `language`: the languages read and their names and extensions.
- `readback`, `readback_log`, `readback_tail`: the proof that a statement written out by
  `to_string` is read back by `parse` as itself, for statements whose title, fields, tail and
  change log are plain (see `plain_title`, `plain_fields` and `plain_rest`). Plain fields may
  span lines, as `parse` and `tidy` can leave them, so long as each line opens as a statement's
  lines do. For a statement that `parse` reads and `tidy` tidies, the title is always plain
  (`lemma_read_back_parsed`).

The calls into `ra_ap_syntax`, `tree-sitter`, `jiff` and `regex-syntax` stand behind small
trusted wrappers. Where a result takes pages to state (the Rust syntax walk, the captures of a
`tree-sitter` query, what `jiff` reads as a date, which characters beyond ASCII are word
characters), the contract names it and states only short facts about it.

`app/` holds the command-line program (`ls`, `check`, `show`), with `clap`, `ignore`,
`camino` and `miette` around the library.
