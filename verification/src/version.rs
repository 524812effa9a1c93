//! The archive format revisions and their version-dependent tables.
//!
//! Each revision is identified by a four-byte magic at the start of the
//! file.  Which header bits a revision may carry, and which obfuscation
//! key schedule it uses, are driven by the tables in this module rather
//! than hardcoded at the call sites.

use vstd::prelude::*;

verus! {

/// A format revision of the archive container, ordered oldest to newest.
#[derive(Clone, Copy, Debug, PartialEq, Eq, Structural)]
pub enum PFHVersion {
    PFH0,
    PFH2,
    PFH3,
    PFH4,
    PFH5,
}

/// Bit of the header bitmask: the header carries a creation timestamp
/// and a declared-dependencies list.
pub const BIT_EXTENDED_HEADER: u32 = 0x100;

/// Bit of the header bitmask: every index record carries a 64-bit
/// last-modified timestamp.
pub const BIT_INDEX_TIMESTAMPS: u32 = 0x40;

/// Bit of the header bitmask: the index section is obfuscated.
pub const BIT_INDEX_ENCRYPTED: u32 = 0x80;

/// Bit of the header bitmask: entry bodies are obfuscated on the wire.
pub const BIT_DATA_ENCRYPTED: u32 = 0x10;

/// Bit of the header bitmask: entry bodies are compressed on the wire.
pub const BIT_DATA_COMPRESSED: u32 = 0x2;

/// Marker bit inside an index record's size field: this entry's body is
/// obfuscated.
pub const SIZE_BIT_ENCRYPTED: u32 = 0x8000_0000;

/// Marker bit inside an index record's size field: this entry's body is
/// compressed.
pub const SIZE_BIT_COMPRESSED: u32 = 0x4000_0000;

/// Largest on-wire body size an index record can carry beside its two
/// marker bits.
pub const MAX_WIRE_SIZE: u32 = 0x3FFF_FFFF;

impl PFHVersion {
    /// Position of this revision in the oldest-to-newest order.
    pub open spec fn spec_rank(self) -> int {
        match self {
            PFHVersion::PFH0 => 0,
            PFHVersion::PFH2 => 1,
            PFHVersion::PFH3 => 2,
            PFHVersion::PFH4 => 3,
            PFHVersion::PFH5 => 4,
        }
    }

    /// Position of this revision in the oldest-to-newest order.
    pub fn rank(self) -> (r: u8)
        ensures
            r as int == self.spec_rank(),
    {
        match self {
            PFHVersion::PFH0 => 0,
            PFHVersion::PFH2 => 1,
            PFHVersion::PFH3 => 2,
            PFHVersion::PFH4 => 3,
            PFHVersion::PFH5 => 4,
        }
    }

    /// The four magic bytes of this revision, read as one little-endian
    /// 32-bit value.
    pub open spec fn spec_magic(self) -> u32 {
        match self {
            PFHVersion::PFH0 => 0x30484650,
            PFHVersion::PFH2 => 0x32484650,
            PFHVersion::PFH3 => 0x33484650,
            PFHVersion::PFH4 => 0x34484650,
            PFHVersion::PFH5 => 0x35484650,
        }
    }

    /// The four magic bytes of this revision, read as one little-endian
    /// 32-bit value.
    pub fn magic(self) -> (r: u32)
        ensures
            r == self.spec_magic(),
    {
        match self {
            PFHVersion::PFH0 => 0x30484650,
            PFHVersion::PFH2 => 0x32484650,
            PFHVersion::PFH3 => 0x33484650,
            PFHVersion::PFH4 => 0x34484650,
            PFHVersion::PFH5 => 0x35484650,
        }
    }

    /// The header bits this revision may legally carry.  Older revisions
    /// never carry the timestamp or compression bits.
    pub open spec fn spec_legal_bits(self) -> u32 {
        match self {
            PFHVersion::PFH0 => BIT_EXTENDED_HEADER,
            PFHVersion::PFH2 => BIT_EXTENDED_HEADER | BIT_INDEX_TIMESTAMPS,
            PFHVersion::PFH3 => BIT_EXTENDED_HEADER | BIT_INDEX_TIMESTAMPS,
            PFHVersion::PFH4 => BIT_EXTENDED_HEADER | BIT_INDEX_TIMESTAMPS
                | BIT_INDEX_ENCRYPTED | BIT_DATA_ENCRYPTED,
            PFHVersion::PFH5 => BIT_EXTENDED_HEADER | BIT_INDEX_TIMESTAMPS
                | BIT_INDEX_ENCRYPTED | BIT_DATA_ENCRYPTED | BIT_DATA_COMPRESSED,
        }
    }

    /// The header bits this revision may legally carry.
    pub fn legal_bits(self) -> (r: u32)
        ensures
            r == self.spec_legal_bits(),
    {
        match self {
            PFHVersion::PFH0 => BIT_EXTENDED_HEADER,
            PFHVersion::PFH2 => BIT_EXTENDED_HEADER | BIT_INDEX_TIMESTAMPS,
            PFHVersion::PFH3 => BIT_EXTENDED_HEADER | BIT_INDEX_TIMESTAMPS,
            PFHVersion::PFH4 => BIT_EXTENDED_HEADER | BIT_INDEX_TIMESTAMPS
                | BIT_INDEX_ENCRYPTED | BIT_DATA_ENCRYPTED,
            PFHVersion::PFH5 => BIT_EXTENDED_HEADER | BIT_INDEX_TIMESTAMPS
                | BIT_INDEX_ENCRYPTED | BIT_DATA_ENCRYPTED | BIT_DATA_COMPRESSED,
        }
    }

    /// Which revision a magic value names, if any.
    pub open spec fn spec_from_magic(m: u32) -> Option<PFHVersion> {
        if m == PFHVersion::PFH0.spec_magic() {
            Some(PFHVersion::PFH0)
        } else if m == PFHVersion::PFH2.spec_magic() {
            Some(PFHVersion::PFH2)
        } else if m == PFHVersion::PFH3.spec_magic() {
            Some(PFHVersion::PFH3)
        } else if m == PFHVersion::PFH4.spec_magic() {
            Some(PFHVersion::PFH4)
        } else if m == PFHVersion::PFH5.spec_magic() {
            Some(PFHVersion::PFH5)
        } else {
            None
        }
    }

    /// Which revision a magic value names, if any.
    pub fn from_magic(m: u32) -> (r: Option<PFHVersion>)
        ensures
            r == PFHVersion::spec_from_magic(m),
    {
        if m == 0x30484650 {
            Some(PFHVersion::PFH0)
        } else if m == 0x32484650 {
            Some(PFHVersion::PFH2)
        } else if m == 0x33484650 {
            Some(PFHVersion::PFH3)
        } else if m == 0x34484650 {
            Some(PFHVersion::PFH4)
        } else if m == 0x35484650 {
            Some(PFHVersion::PFH5)
        } else {
            None
        }
    }
}

} // verus!
