# text_toolkit

Line- and word-oriented text operations with machine-checked contracts:
counting, deduplication, sorting, case changes, word and character
frequencies, word wrapping, trimming, numbering, head/tail and regular
expression replacement.

## Layout

- `src/` — the library, written in Verus. Every operation has a contract
  stated over character sequences (`Seq<char>`), and the properties that
  relate operations (splitting and joining lines undo each other, wrapping
  keeps every word, trimming twice is trimming once, sorting and frequency
  tables are fully determined, ...) are proof functions named `law_*`.
  - `text.rs`: character views of strings, UTF-8 facts, words, numerals,
    and the standard library's character classes and case mappings.
  - `order.rs`: the text order, ordered key vectors and a stable merge sort.
  - one module per operation: `casing`, `wc`, `number`, `trim`, `dedup`,
    `freq`, `sort`, `wrap`, `replace` (with `pattern` wrapping the `regex`
    crate).
- `tests/` — unit tests of the library.
- `app/` — the `text-toolkit` command line program (clap argument parsing,
  file and standard I/O, and reading numeric sort keys as floats).
