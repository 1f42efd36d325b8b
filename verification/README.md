# hyperfind

A local file-name search engine, verified with Verus.

`src/` is the library. Verus proves the contract of every function in it,
except the small trusted items in `stdx`, `treemap`, `dates`, `document`,
`dto`, `extractor`, `mft` and `paths` that call the standard library,
`chrono`, `crc32fast`, `rustc-hash` and `roaring`: each is marked
`#[verifier::external_body]`, and its contract is believed, not proved.

- `text`, `compare`, `codes`: ASCII case-insensitive matching and ordering,
  trigram codes of names.
- `trigram`, `bitmap`: the trigram inverted index and the extension /
  entry-type bitmaps (Roaring treemaps), with their binary formats.
- `dsl`, `query`: the query language (`ext:`, `path:`, `size:`, `modified:`,
  `type:`, `content:`, quoted phrases) and query normalisation.
- `matcher`, `filters`, `ranking`, `extractor`: keyword scoring, filters,
  result ordering, and content snippets.
- `index_store`, `hashindex`, `cache`, `scheduler`, `service`: the document
  store with its path and id indexes, the query cache, the task queue and the
  search service.
- `segment`, `le`, `numfmt`, `dates`: the segment file format, little-endian
  fields, number formatting, dates.
- `mft`, `scanner`, `volumes`, `paths`: the pure parts of scanning (NTFS file
  table buffers, path resolution, exclusion, mount tables, path texts).
- `stdx`, `treemap`: most of the trusted items.

`app/` is the command-line program around it: argument parsing, file-system
and JSON I/O, the clock, floating-point relevance scores, and platform APIs.
`tests/` exercises the library.
