# pathmap

Tries of byte paths, and a compact, read-only form of them in one arena of bytes.

- `src/utils`: sets of bytes as 256-bit masks, their iterators and their text.
- `src/ring.rs`: join, meet and difference of masks.
- `src/trie*.rs`, `src/mapped.rs`: the mathematical model that the contracts speak of.
- `src/arena_compact`: the file format, building a file from a zipper (also with re-use of shared
  subtries), streaming a file from ordered paths, merging into a file, zippers over a file, and
  telling whether bytes are a sound file.
- `src/path_map`: a trie in memory whose nodes can be shared, and merkleization.
- `src/morphisms.rs`: folding a trie from its leaves to its root.
- `src/harness`: scripts of zipper operations and how they are told.
- `src/laws`: what holds of several functions together.
- `app`: files, memory maps and the console around the library.
