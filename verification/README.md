# grass_verified

Verified building blocks of a Sass compiler, written in Verus.

## Layout

- `src/css_tree.rs` — the tree of CSS statements built during evaluation:
  adding and linking statements, moving children between parents, hiding
  subtrees, copying subtrees (visible or hidden), visibility queries, and
  `finish`, which folds the links into statement bodies and returns the
  output. Its view is a sequence of statement slots, a map of children, a
  map of parents and a set of hidden nodes; every mutator keeps the links
  in bounds and acyclic.
- `src/selector.rs` — complex selectors: specificity, invisibility,
  parent-selector detection, bogus and useless combinator patterns, and the
  superselector relation.
- `src/extension.rs` — `@extend` extensions: one-off extensions and the
  check that an extension applies in a media context.
- `src/media.rs` — media queries of the output and their comparison.
- `src/if_condition.rs` — conditions of the CSS `if()` function: detection
  of `sass()` atoms and raw substitutions, the check that refuses mixing
  them in one scope, and serialization.
- `src/moz_document.rs` — the `@-moz-document` prelude check and the
  top-level comma split it relies on.
- `src/path.rs` — lexical normalization of `.` and `..` path components,
  and what it makes of a path that every platform splits at `/` alone.
- `src/options.rs` — compilation options (including which deprecations
  are silenced, fatal or opted into early) and the syntax a file extension
  names.
- `src/fs.rs` — directory listings that answer existence checks without a
  further file system call, when they can.
- `src/logger.rs`, `src/importer.rs` — the logger types, the deprecation
  warning text, what an importer answers, the choice among import
  candidates that exist (with the error when more than one does), the
  bases an import is looked up in (the importing file's directory, then
  each load path) and the search over them, one answered question at a
  time.
- `src/import_path.rs` — the candidate files of an import: partials,
  `.sass` before `.scss`, import-only files for `@import`, then CSS, and
  the shorter lists of a path that names its extension.
- `app/` — the file system, logging and importer traits with their
  implementations, the loop that answers the import search from the file
  system, and the string interner: the parts that perform I/O or hold
  global state.
- `tests/` — tests of the library through its public interface.

Each module states its laws as public proof functions (named `lemma_*`)
next to the functions they speak of.
