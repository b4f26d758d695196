//! Compact storage for RDF 5-tuples: a reader and writer for the R5TU file format.

pub mod header;
pub mod le;
pub mod varint;
pub mod reader;
pub mod layout;
pub mod triples;
pub mod text;
pub mod writer;
pub mod runs;
pub mod intern;
pub mod sort;
pub mod strdict;
pub mod termdict;
pub mod sections;
pub mod procstatus;
pub mod compress;
pub mod sidecar;
pub mod sidecar_build;
pub mod update;
pub mod index;
pub mod closure;
pub mod snapshot;
pub mod graphname;
pub mod posting_laws;
pub mod sidecar_laws;
pub mod block_laws;
pub mod view;
pub mod container_laws;
pub mod scan_laws;
pub mod file_laws;
pub mod term_laws;
