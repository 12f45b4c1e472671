# zhtw_scan

A scanner for Traditional Chinese text. It finds Mainland phrasing, misused
punctuation, translationese and the habits of machine-written prose, and says
what to write instead. Every function of the library is verified with Verus,
but for the calls that are named below.

## Layout

- `src/text.rs`, `src/bytes.rs`, `src/chars.rs`, `src/lines.rs`, `src/bounds.rs`:
  a text as characters and bytes, its lines and paragraphs.
- `src/issue.rs`, `src/emit.rs`, `src/walk.rs`: findings, and how detectors
  report them.
- `src/rules.rs` to `src/database.rs`: rules, which of them are compiled, the
  automata that find their phrases, and the clues that decide about a match.
- `src/casing.rs`: terms that are written in one case.
- `src/spelling.rs`, `src/inflate.rs`: the pass over the rules' phrases.
- `src/punctuation.rs`, `src/marks.rs`, `src/quotes.rs`, `src/brackets.rs`,
  `src/spacing.rs`: punctuation, quotation marks, brackets and spaces.
- `src/grammar/`: detectors that read phrases, sentences and paragraphs.
- `src/overlap.rs`, `src/listing.rs`, `src/phases.rs`, `src/mentions.rs`,
  `src/regions.rs`: which findings are kept, and in which order they stand.
- `src/passes.rs`, `src/scanner.rs`: the passes in their order, and the scan of a
  document.
- `app/`: reports in the form in which they are exchanged.

## What the library is told

Word segmentation, the sentences and paragraphs of a document, the structure of
Markdown and YAML, Unicode composition and the tables of simplified and
traditional characters come from the caller, as plain values: spans, byte
ranges, offsets and flags.

## What is taken on trust

`src/automaton.rs` and `src/phrase_table.rs` hold the calls into `aho-corasick`,
`daachorse` and `rustc-hash`, and `src/casing.rs` that of `str::to_lowercase`,
each with the contract that the rest is proved from. Everything whose name begins with `law_` states a property of the library
as a whole.
