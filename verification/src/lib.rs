//! An archive-container engine for a proprietary binary package format.
//!
//! The crate opens, indexes, lazily reads, mutates and rewrites archives
//! ("packs") that hold many named entries, and offers a schema-driven codec
//! that decodes and encodes versioned tabular records stored inside such
//! archives, together with cross-archive foreign-key resolution.
//!
//! All parsing and serialisation works over plain byte buffers; reading a
//! pack from disk and writing one back is left to the caller.

pub mod codec;
pub mod dependency;
pub mod error;
pub mod packedfile;
pub mod packfile;
pub mod schema;
pub mod table;
pub mod version;
pub mod wire;
