# asciitrie

A compact map from ASCII strings to `usize` values, stored as a trie in one run of
bytes, together with the byte encodings it is made of, all verified with Verus.

- `varint`, `varinta`, `varintb`, `varintx`: the variable-length integers of the trie's
  value and branch nodes, with their write/read round trips: for every value, except that
  `varintx::write_varint2`, whose lead byte has room for at most three trail bytes, reads
  back only below 2^27.
- `builder6`, `reader6`, `lookup6`, `litemap`: the layout of `ZeroTrieSimpleAscii`,
  `ZeroTriePerfectHash` and `ZeroTrieExtendedCapacity` (value nodes and spans with the
  varint of `varinta`, branch nodes searched by their bytes or through a perfect hash,
  with one offset per target but the first), its builder (`trie6_bytes`, the options of
  each kind), its reader (`get6`, and `iter6`, whose pairs each read back), and the
  constructors from sorted pairs and the const constructors. A trie built with the
  options of `ZeroTrieSimpleAscii` holds exactly the given pairs: every query reads as
  the value of the key equal to it, or `None` (`lemma_trie6_reads_back`), and its walk
  lists the pairs in order (`lemma_trie6_walk`). Building ends,
  if in an error, in `CouldNotSolvePerfectHash`, or in `CapacityExceeded` with normal
  capacity only (`lemma_trie6_errors`).
- `reader`: lookup in the older layout with one offset per target (`get`) and a
  depth-first walk of its pairs (`AsciiTrieIterator`), both against spec functions
  (`spec_get`, `trie_items`); `reader3` reads the layout with in-line branches.
- `const_builder`: the builder that lays that older layout out in a buffer of fixed
  size. For keys in strictly increasing order its result is the layout
  `const_trie_bytes` and holds exactly the given pairs: `reader::get` gives each key's
  value and `None` for any other ASCII key, and the walk yields the pairs in order
  (`trie_of`). `represents` and `offsets` hold the node-by-node proofs.
- `builder3`: the builder of the layout `reader3` reads, with search trees of branch
  nodes in line, and the proof that each key reads back as its value.
- `builder`, `lookup`: a builder of a simpler layout (small values, one-byte offsets) and
  the proof that what it builds reads back right.
- `byte_phf`, `phf_cache`: perfect hash maps over bytes (the search for one, stated
  step by step as `spec_find`, its lookup, and a cache of them); the byte hash is
  `wyhash`, called through one trusted wrapper.
- `trie`, `zerotrie`: the public trie types over any byte store.
- `const_util`, `store`, `tstore`: the buffers and stacks the builders work in.
- `varzerovec`: the byte layout of a vector of variable-length elements, its parser,
  writer and binary searches (by bytes or by a comparator), with the proof that
  parsing what was written gives the elements back.
- `calendar`: which calendar's date data each kind of calendar reads, and the
  identifiers that name each calendar.
- `ascii`, `bytestr`, `error`, `path`, `line_break`, `decimal`, `ule`, `supported`:
  the smaller types and helpers.

`app/` holds what cannot be verified: the error type with display messages and the
wrapping of I/O errors with a file path.
