# jsonb

JSONPath selection over JSONB, a binary encoding of JSON, verified with Verus.

A `Selector` holds a path and a mode. It is applied to the bytes of a document:

- `select` returns what the path leads to. The mode says in which form: the first
  value, each value, one array of all values, or an array only where there are
  several. A path that is a predicate returns `true` or `false`.
- `path_exists` says whether the path leads anywhere.
- `predicate_match` says whether the document satisfies a predicate.

Each of them requires that the evaluation has an outcome, which rules out
documents whose descriptors point outside of them and expressions that have no
meaning. `can_select` checks at run time that a document is well-formed and that
a path has a meaning for arrays as long as those of the document; then all three
can be called.

## Layout

- `semantics.rs` says what a path selects, over the bytes of a document.
- `document.rs` says what value a document stands for, and what a path selects in
  a value.
- `laws.rs`, `position_laws.rs` and `order_laws.rs` hold what is proved of all
  documents, paths and scalars: among other things that the two descriptions
  agree.
- `selector.rs`, `eval.rs`, `container.rs` and `output.rs` hold the selector.
- `path.rs` and `number.rs` hold paths, scalars and their order. A float is held
  as the bits of its encoding.
- `validate.rs` holds the checks of documents and paths.
- `wire.rs` and `text.rs` hold everything that is taken on trust: two parsers of
  `nom`, one writer of `byteorder`, and `String::from_utf8`.
- `correspondence.rs`, `soundness.rs` and `readback.rs` hold the proofs behind the
  laws.
