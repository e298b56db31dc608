//! A minimal content-addressed version-control core: blake3 fingerprints,
//! an object store keyed by digest, Merkle snapshot trees of a working
//! directory, a recursive diff engine, and a commit DAG with branch refs.

pub mod blob;
pub mod codec;
pub mod commit;
pub mod directory;
pub mod dot_log;
pub mod hex;
pub mod objects;
pub mod order;
