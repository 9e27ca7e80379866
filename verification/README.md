# lindera_dictionary

Dictionary building and reading for a morphological analyzer, verified with
Verus.

- `src/` is the verified library: parsing of `matrix.def`, `char.def`,
  `unk.def`, lexicon and user-dictionary rows; the prefix dictionary and its
  trie search; the N-best search over a lattice; the context-id remap;
  compression framing; the training
  inputs (feature templates, rewrite rules, labels); and the decisions of the
  download loop. Each public function states its result in `ensures`; laws
  that relate several functions are public proof functions.
- `app/` reads and writes files, downloads source archives, and holds the
  copies of library types that carry serialization derives.
- `tests/` runs the library on concrete inputs.
