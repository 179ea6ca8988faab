//! Addressing and auditing of a sharded tree of diagram files.
//!
//! Every diagram is named by a fixed-format identifier that stands for a
//! 40-bit index. The identifier decides the one directory and file name
//! under which the diagram has to be stored. The library computes those
//! locations, recovers identifiers from file names, and classifies the
//! entries of an existing tree against the set of identifiers that are
//! required to exist.
pub mod text;
pub mod fixups;
pub mod fs;
pub mod ena;
pub mod lineage;
pub mod results;
pub mod coloring;
pub mod lca;
