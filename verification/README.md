# wikitools

Building blocks for dictionaries made from Wikimedia data, verified with Verus.

- `src/escape.rs` — DSL headword escaping, unquoting of quoted values, namespace
  detection of page titles.
- `src/dsl.rs` — the text of a DSL dictionary: header and cards.
- `src/xml.rs` — XML attribute escaping and reading of XML character data
  (entities and character references).
- `src/mdx.rs` — the bytes of an MDX (v2) dictionary: Adler-32, block packing,
  key and record sections; zlib compression through `flate2`.
- `src/titles.rs` — article titles from an all-titles dump: gzip decoding through
  `flate2`, title extraction, namespace filtering, page URLs, entries sorted and deduplicated with
  `rayon`.
- `src/text.rs`, `src/bytes.rs` — character and byte helpers.
- `app/` — file and process plumbing: writing dictionaries to disk, `dictzip`,
  reading and fetching dumps.
