# libtqsm

Splits text into sentences. The library is verified with Verus.

- `src/rules.rs` states which sentences a text has in a language, and `src/laws.rs` what holds of
  that as a whole.
- `src/language.rs` and `src/segmentation.rs` compute the sentences, and `src/incremental.rs` does so
  for text that arrives in parts.
- `src/languages.rs` holds the languages and the search for the one that serves for a code;
  `src/constants.rs` holds their words and the shared patterns.
- `src/text.rs`, `src/split.rs`, `src/graphemes.rs` and `src/pattern.rs` are what they rest on. The
  calls of `regex`, `fancy-regex`, `unicode-segmentation` and of the standard library's case
  conversion stand in the last two and in `src/text.rs`.
- `app/` reads languages from JSON and reports errors with `anyhow`.

A text cannot always be cut: offsets of boundaries can come out of order or fall inside a character,
a terminator can stand inside a cluster, and the search for brackets can be given up because it
takes too many steps. The functions whose names start with `try_` find that out first; the others
require that it does not happen.
