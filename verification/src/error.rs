//! The error taxonomy of the library.

use vstd::prelude::*;

verus! {

/// Everything that can go wrong while opening, decoding, mutating or
/// serialising an archive or one of its tables.
#[derive(Clone, Copy, Debug, PartialEq, Eq, Structural)]
pub enum Error {
    /// A read reached outside the backing buffer of an on-disk entry.
    Io,
    /// Malformed input: bad magic, a truncated index, an illegal header
    /// bit, or a bad compression frame.
    CorruptData,
    /// No schema definition set is known for the requested table name.
    SchemaNotFound,
    /// The table declares a version for which the schema holds no
    /// definition.
    UnknownVersion,
    /// The table name is known but the exact requested version is not.
    DefinitionNotFound,
    /// The table bytes ended in the middle of a fixed-width field.
    Truncated,
    /// A field's own length or marker is inconsistent with the buffer.
    InvalidField,
    /// An entry already exists at the destination path.
    PathConflict,
    /// No entry exists at the given path.
    EntryNotFound,
    /// The entry's body is not held in memory.
    DataNotInMemory,
}

/// A failure met while serialising a whole archive; the destination must
/// be left untouched by the caller when one is returned.
#[derive(Clone, Copy, Debug, PartialEq, Eq, Structural)]
pub enum SaveError {
    /// An entry's stored transforms could not be undone.
    CorruptData,
    /// An entry or the index would not fit its size field on the wire.
    EntryTooLarge,
}

} // verus!
