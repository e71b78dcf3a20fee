# termepub

A terminal EPUB reader. The reading logic is a library verified with Verus;
the terminal, the files and the command line are a thin program around it.

## Layout

- `src/` — the verified library.
  - `epub/archive.rs`: the bounded ZIP archive (member count, per-member and
    aggregate size, compression ratio), path normalization, `encryption.xml`.
  - `epub/xml.rs`: XML events from `quick_xml`, seen as plain values.
  - `epub/package.rs`: `container.xml`, the package document, the EPUB 3 nav
    and EPUB 2 NCX tables of contents, spine resolution.
  - `extract.rs`: HTML to styled text runs.
  - `layout.rs`: wrapping, justification, pagination and whole-book search.
  - `state.rs`: the reading-state document (positions, bookmarks, settings).
  - `dictionary.rs`: lookups and ranked suggestions.
  - `ui/`: the application state machine (`app.rs`), themes and colours,
    and the reader's small geometry helpers.
  - `lib.rs`: `EpubBook` and the public entry points.
- `tests/` — tests of the library, run against the real outside crates.
- `app/` — `main`, the terminal loop (crossterm, ratatui), file I/O, JSON
  with serde_json, and the dictionary's background load.

## Contracts

Each public function states its result over spec functions: the package
readers are state machines over the document's XML events, the archive's
reads are stated over the members the `zip` crate lists, and the
application's key handling is one relation per mode. Laws that relate
several calls (round trips of positions, bookmarks and settings, the theme
cycle, idempotent path normalization, the shape of pagination, the order of
dictionary suggestions) are public proof functions next to the code they
speak of.
