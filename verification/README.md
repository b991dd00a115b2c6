# divvun_runtime

The logic of a modular language-processing pipeline for grammar checkers and
text-to-speech, written in Verus: every function in `src/` carries a contract
that Verus proves.

## Layout

- `src/` — the verified library.
  - `cg3`, `cg3_util`, `sentences`: reading and writing CG-3 streams, and
    cutting them into sentences.
  - `suggest`, `widen`, `blanktag`, `cgspell`, `normalize`, `phon`, `lookup`,
    `hfst`: grammar-checker error markup, the stretching of overlapping
    errors, and the text-to-speech normalisation steps.
  - `ssml`, `ssml_check`, `speech`: SSML walking and the conditions under
    which the SSML parser may be called.
  - `fluent`, `fluent_loader`, `xml_*`: message files, their checks, and the
    conversion of error-description XML.
  - `pipeline`, `commands`, `config`, `value`, `ts`: pipeline types, the
    decisions of the streaming commands, and the generated TypeScript types.
  - `text`, `num`, `order`, `unicode`: string, number and character helpers.
- `tests/` — tests of the library on concrete values.
- `app/` — the command-line program: file and console I/O around the library.

Calls into the outside crates (regex, ssml-parser, fluent-syntax,
fluent-bundle, unic-langid, xmlem, serde_json) sit behind small trusted items
whose contracts say what those crates' sources show; each says in its doc
comment what it claims.

Build and check with Verus; the tests run with `cargo test`.
