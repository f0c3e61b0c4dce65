# rustfind cross-crate maps

The source browser records, for every AST node of a crate, where the node
stands in the source; other crates read these records to link to the
definitions they use. The records live in `.rfx` map files, one
tab-separated record per line.

- `src/text.rs`: splitting text into lines and tab-separated fields,
  decimal rendering and reading of integers, with their laws
  (what is rendered reads back).
- `src/crosscratemap.rs`: the map type, the reader and the writer of map
  files, and the choice of which file a map is read from.
- `src/roundtrip.rs`: the law that a written map file reads back as the
  places of exactly the written nodes.
- `app/`: the command line and the file handling around the library.
- `tests/`: tests of the library on concrete values.
