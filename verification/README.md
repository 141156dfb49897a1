# phrasegen

Learns keystroke-timing models from public typing datasets and your own
recordings, and uses them to plan, generate and score passphrases that are fast
to type for a given entropy budget.

## Layout

- `src/` is the library, written in Verus: its functions carry contracts
  and are proved against them, except the few trusted items that call the
  outside crates and `std` (the wrappers marked `external_body` in
  `unicode`, `import::formats` and `rank`, and the `assume_specification`s
  of `String::push` and `char::from_u32`), whose contracts are taken as
  given.
  - `text`, `unicode`, `textprep`, `score`: character sequences, Unicode
    normalization and grapheme clusters, scrubbing of words.
  - `model`, `timing`: digraph keys, the row filters, observation counts
    and the kept digraphs of a fit, hand and letter-class grouping, the
    back-off decision of personalized models.
  - `kgram`: transition counts of a character k-gram model.
  - `entropy`: collision counts and ranked outcome counts.
  - `generate`, `passphrase`, `styles`, `wordfreq`, `rank`: word lists,
    corpus counts, casing, style presets and their uniform draws, phrase
    assembly, merged word-frequency lists.
  - `record`: the state machine of a typing session.
  - `import`: the dataset readers (CSV and zip framing, column selection,
    session assembly).
- `app/` is the command-line tool around the library: argument handling, file
  and network I/O, terminal input, and the floating-point statistics (model
  fitting, adaptation, scoring, smoothing, Monte Carlo analysis).
- `tests/` exercises the library on concrete values.
