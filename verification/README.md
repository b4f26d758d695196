# rdf5d

Compact storage for RDF 5-tuples `(id, subject, predicate, object, graph
name)`: a writer that packs tuples into a single R5TU file image, a reader
that opens an image and answers lookups by dataset id, graph name and graph
group, an in-memory permutation index, a persistent sidecar index, and a
query snapshot that presents graph groups sharing a name as one logical
graph.

The library is written in Verus. Every function in `src/` carries a
`requires`/`ensures` contract that Verus checks; the few calls into the
standard library and into `zstd` that Verus cannot read stand behind small
trusted wrappers whose contracts say what the called function does.

## Layout

- `src/header.rs`, `src/le.rs`, `src/varint.rs`: the 32-byte header, the
  table of contents, the footer, little-endian words, LEB128 varints.
- `src/writer.rs`, `src/strdict.rs`, `src/termdict.rs`, `src/sections.rs`,
  `src/triples.rs`, `src/intern.rs`, `src/sort.rs`: the writer. The file image
  of a list of tuples is a spec function (`spec_file_image`); the writer
  returns exactly those bytes.
- `src/reader.rs`, `src/layout.rs`: the reader. What each lookup returns is
  stated over the bytes of the image.
- `src/index.rs`, `src/sidecar.rs`, `src/sidecar_build.rs`: the in-memory and
  on-disk permutation indexes and the closure index.
- `src/snapshot.rs`, `src/view.rs`, `src/closure.rs`: logical graphs, scans
  with de-duplication, scoped views, import closures.
- `src/update.rs`: replacing one graph group of a file.
- `src/*_laws.rs`: the round-trip laws: a varint, a triple block, a posting
  list, a sidecar file, the frame of a file, a written file read back
  (groups, triples and terms), and the agreement of index lookups with
  full scans.
- `app/`: the command-line tool, file I/O, memory mapping, RDF parsing
  through `oxigraph`, and the process-status reader.
- `tests/`: tests run against the compiled library with the real outside
  crates.
