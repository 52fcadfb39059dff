# i18n-le

Audits a set of translation catalogues against one of them and reports what
is structurally wrong: missing and extra keys, placeholders dropped or
renamed, constructs from another i18n convention, empty values, keys defined
twice, and paths that are an object in one locale and a string in another.
It first works out which i18n library the project uses (i18next, next-intl,
VS Code l10n, Flutter ARB) from five classes of evidence, and refuses rather
than guesses when the evidence does not agree.

## Layout

- `src/` — the library, verified with Verus. Every rule lives here: the
  library table, message lexing, catalogue flattening, locale reading,
  identification, layouts, the audit, the report, the command line and the
  agent tool's arguments. Each public function states its result exactly;
  the `law_*` proof functions state what holds across calls.
- `tests/` — ordinary Rust tests against the compiled library.
- `app/` — the program around it: the filesystem walk, JSON in and out, the
  terminal and the JSON-RPC server on stdio.
