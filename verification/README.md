# dupehound (verified core)

Structural duplicate-function detection: every function body is parsed with
tree-sitter, normalized (identifiers and literals folded to sentinels,
comments dropped, structure kept as grammar kind ids), fingerprinted by
winnowing, and matching functions are clustered.

The library under `src/` is verified with Verus:

- `text`, `lines`: byte-level text primitives (`str::lines`, trimming,
  whitespace collapsing, UTF-8 aware whitespace).
- `walk`: path rules (test paths, default exclusions), content skip rules,
  the per-file discovery decision, and the order in which files are listed.
- `lang`, `queries`: languages, grammars, function queries, and the leaf
  token classification (including the Lisp call-head rules).
- `syntax`: tree-sitter's tree read into plain values with its well-formedness,
  and navigation (fields, children, text).
- `normalize`, `fingerprint`: the normalized token stream and winnowing.
- `extract`: function units and class shapes of a file, with the Rust
  `#[cfg(test)]` boundary and the trait-impl / Clojure dispatch flags.
- `union_find`, `graph`, `order`, `cluster`: grouping of matching pairs,
  representative choice, nested-cluster suppression and ordering.

Outside crates are reached only through small trusted wrappers whose
contracts are stated next to them. `app/` holds the filesystem walk and file
reading, and the serialisable form of a language.
