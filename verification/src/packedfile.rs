//! One logical file inside an archive, and its two-state body.
//!
//! A body is either already in memory — possibly still carrying the
//! wire transforms it was stored with — or still on the backing buffer
//! the archive was opened from, described by offset and size.  A body
//! moves from the backing buffer to memory at most once and stays
//! there; decoding undoes the recorded transforms, de-obfuscation
//! first, then decompression.

use vstd::prelude::*;

use crate::codec::{decompress, deobfuscate, spec_decompress, spec_obfuscate};
use crate::error::Error;
use crate::version::PFHVersion;
use crate::wire::{clone_bytes, copy_range};

verus! {

/// Where an entry's bytes currently live.
///
/// - `OnMemory`: the bytes, and whether they are still compressed and
///   still obfuscated as they were on the wire.
/// - `OnDisk`: offset and on-wire size of the bytes inside the backing
///   buffer of the archive the entry came from.
#[derive(Debug)]
pub enum PackedFileData {
    OnMemory(Vec<u8>, bool, bool),
    OnDisk(u64, u32),
}

/// One logical file inside an archive.
///
/// - `path`: slash-delimited location inside the archive;
/// - `timestamp`: last-modified stamp, meaningful only when the owning
///   archive's timestamp bit is set;
/// - `is_compressed`: whether the owning archive recorded this body as
///   compressed on the wire;
/// - `is_encrypted`: when set, the body was recorded as obfuscated, and
///   the value names the format version whose key schedule undoes it;
/// - `data`: the body itself.
#[derive(Debug)]
pub struct PackedFile {
    pub path: Vec<u8>,
    pub timestamp: u64,
    pub is_compressed: bool,
    pub is_encrypted: Option<PFHVersion>,
    pub data: PackedFileData,
}

impl PackedFile {
    /// Structural soundness of one entry on its own: an in-memory body
    /// fits the index size field, and a body still obfuscated knows
    /// which version's key schedule to undo.
    pub open spec fn wf(self) -> bool {
        match self.data {
            PackedFileData::OnMemory(d, _c, e) => {
                &&& d@.len() <= u32::MAX
                &&& (e ==> self.is_encrypted is Some)
            },
            PackedFileData::OnDisk(_off, _size) => true,
        }
    }

    /// The version whose key schedule de-obfuscates this body.
    pub open spec fn spec_enc_version(self) -> PFHVersion {
        match self.is_encrypted {
            Some(v) => v,
            None => PFHVersion::PFH5,
        }
    }

    /// The body's raw on-wire bytes, given the backing buffer of the
    /// owning archive; `None` when an on-disk descriptor reaches past
    /// the end of that buffer.
    pub open spec fn spec_raw(self, source: Seq<u8>) -> Option<Seq<u8>> {
        match self.data {
            PackedFileData::OnMemory(d, _c, _e) => Some(d@),
            PackedFileData::OnDisk(off, size) => if off + size <= source.len() {
                Some(source.subrange(off as int, off + size))
            } else {
                None
            },
        }
    }

    /// Whether the raw bytes are still compressed.
    pub open spec fn spec_wire_compressed(self) -> bool {
        match self.data {
            PackedFileData::OnMemory(_d, c, _e) => c,
            PackedFileData::OnDisk(_off, _size) => self.is_compressed,
        }
    }

    /// Whether the raw bytes are still obfuscated.
    pub open spec fn spec_wire_encrypted(self) -> bool {
        match self.data {
            PackedFileData::OnMemory(_d, _c, e) => e,
            PackedFileData::OnDisk(_off, _size) => self.is_encrypted is Some,
        }
    }

    /// The body's decoded bytes: the raw bytes with the recorded
    /// transforms undone, de-obfuscation first, then decompression.
    /// `None` when the descriptor reaches past the backing buffer or
    /// the compression frame is malformed.
    pub open spec fn spec_decoded(self, source: Seq<u8>) -> Option<Seq<u8>> {
        match self.spec_raw(source) {
            None => None,
            Some(raw) => {
                let plain = if self.spec_wire_encrypted() {
                    spec_obfuscate(raw, self.spec_enc_version())
                } else {
                    raw
                };
                if self.spec_wire_compressed() {
                    spec_decompress(plain)
                } else {
                    Some(plain)
                }
            },
        }
    }

    /// The on-wire size: the recorded size for an on-disk body, the
    /// current length for an in-memory one.
    pub open spec fn spec_size(self) -> u32 {
        match self.data {
            PackedFileData::OnMemory(d, _c, _e) => d@.len() as u32,
            PackedFileData::OnDisk(_off, size) => size,
        }
    }

    /// Builds an entry whose bytes are already in memory and carry no
    /// obfuscation.
    pub fn read_from_vec(path: Vec<u8>, timestamp: u64, is_compressed: bool, data: Vec<u8>) -> (
        r: Self)
        requires
            data@.len() <= u32::MAX,
        ensures
            r.path == path,
            r.timestamp == timestamp,
            r.is_compressed == is_compressed,
            r.is_encrypted is None,
            r.data == PackedFileData::OnMemory(data, is_compressed, false),
            r.wf(),
    {
        Self { path, timestamp, is_compressed, is_encrypted: None, data: PackedFileData::OnMemory(
            data,
            is_compressed,
            false,
        ) }
    }

    /// Builds an entry from all of its parts, body state included.
    pub fn read_from_data(
        path: Vec<u8>,
        timestamp: u64,
        is_compressed: bool,
        is_encrypted: Option<PFHVersion>,
        data: PackedFileData,
    ) -> (r: Self)
        requires
            match data {
                PackedFileData::OnMemory(d, _c, e) => d@.len() <= u32::MAX && (e
                    ==> is_encrypted is Some),
                PackedFileData::OnDisk(_off, _size) => true,
            },
        ensures
            r.path == path,
            r.timestamp == timestamp,
            r.is_compressed == is_compressed,
            r.is_encrypted == is_encrypted,
            r.data == data,
            r.wf(),
    {
        Self { path, timestamp, is_compressed, is_encrypted, data }
    }

    /// Moves an on-disk body into memory untouched — still compressed
    /// and still obfuscated exactly as the index recorded it.  A no-op
    /// for a body already in memory.  What the entry decodes to does
    /// not change.
    pub fn load_data(&mut self, source: &Vec<u8>) -> (r: Result<(), Error>)
        requires
            old(self).wf(),
        ensures
            final(self).wf(),
            final(self).path == old(self).path,
            final(self).timestamp == old(self).timestamp,
            final(self).is_compressed == old(self).is_compressed,
            final(self).is_encrypted == old(self).is_encrypted,
            match r {
                Ok(_) => {
                    &&& old(self).spec_raw(source@) is Some
                    &&& final(self).data matches PackedFileData::OnMemory(d, c, e)
                        && d@ == old(self).spec_raw(source@).unwrap() && c == old(
                        self,
                    ).spec_wire_compressed() && e == old(self).spec_wire_encrypted()
                    &&& final(self).spec_decoded(source@) == old(self).spec_decoded(source@)
                },
                Err(e) => e == Error::Io && old(self).spec_raw(source@) is None && *final(self)
                    == *old(self),
            },
    {
        match &self.data {
            PackedFileData::OnMemory(_d, _c, _e) => Ok(()),
            PackedFileData::OnDisk(off, size) => {
                let off = *off;
                let size = *size;
                let n = source.len();
                if off > n as u64 {
                    return Err(Error::Io);
                }
                match copy_range(source, off as usize, size as usize) {
                    Some(raw) => {
                        self.data = PackedFileData::OnMemory(
                            raw,
                            self.is_compressed,
                            self.is_encrypted.is_some(),
                        );
                        Ok(())
                    },
                    None => Err(Error::Io),
                }
            },
        }
    }

    /// Decodes the raw bytes held in `raw` according to the flags of
    /// this entry's current body state, de-obfuscation first, then
    /// decompression.
    fn decode_raw(&self, raw: Vec<u8>) -> (r: Result<Vec<u8>, Error>)
        ensures
            match r {
                Ok(d) => ({
                    let plain = if self.spec_wire_encrypted() {
                        spec_obfuscate(raw@, self.spec_enc_version())
                    } else {
                        raw@
                    };
                    if self.spec_wire_compressed() {
                        spec_decompress(plain) == Some(d@)
                    } else {
                        plain == d@
                    }
                }),
                Err(e) => {
                    &&& e == Error::CorruptData
                    &&& self.spec_wire_compressed()
                    &&& spec_decompress(
                        if self.spec_wire_encrypted() {
                            spec_obfuscate(raw@, self.spec_enc_version())
                        } else {
                            raw@
                        },
                    ) is None
                },
            },
    {
        let wire_encrypted = match &self.data {
            PackedFileData::OnMemory(_d, _c, e) => *e,
            PackedFileData::OnDisk(_off, _size) => self.is_encrypted.is_some(),
        };
        let wire_compressed = match &self.data {
            PackedFileData::OnMemory(_d, c, _e) => *c,
            PackedFileData::OnDisk(_off, _size) => self.is_compressed,
        };
        let enc_version = match self.is_encrypted {
            Some(v) => v,
            None => PFHVersion::PFH5,
        };
        let plain = if wire_encrypted {
            deobfuscate(&raw, enc_version)
        } else {
            raw
        };
        if wire_compressed {
            decompress(&plain)
        } else {
            Ok(plain)
        }
    }

    /// Reads and decodes the body without caching anything: the entry
    /// itself is not touched.
    pub fn get_data(&self, source: &Vec<u8>) -> (r: Result<Vec<u8>, Error>)
        requires
            self.wf(),
        ensures
            match r {
                Ok(d) => self.spec_decoded(source@) == Some(d@),
                Err(e) => {
                    &&& self.spec_decoded(source@) is None
                    &&& (e == Error::Io <==> self.spec_raw(source@) is None)
                    &&& (e == Error::Io || e == Error::CorruptData)
                },
            },
    {
        let raw = match &self.data {
            PackedFileData::OnMemory(d, _c, _e) => clone_bytes(d),
            PackedFileData::OnDisk(off, size) => {
                let off = *off;
                let size = *size;
                let n = source.len();
                if off > n as u64 {
                    return Err(Error::Io);
                }
                match copy_range(source, off as usize, size as usize) {
                    Some(raw) => raw,
                    None => {
                        return Err(Error::Io);
                    },
                }
            },
        };
        self.decode_raw(raw)
    }

    /// Reads and decodes the body, then keeps the decoded bytes in
    /// memory with both transform flags cleared, so repeated reads are
    /// cheap.  On failure the entry is left unchanged.
    pub fn get_data_and_keep_it(&mut self, source: &Vec<u8>) -> (r: Result<Vec<u8>, Error>)
        requires
            old(self).wf(),
        ensures
            final(self).wf(),
            final(self).path == old(self).path,
            final(self).timestamp == old(self).timestamp,
            final(self).is_compressed == old(self).is_compressed,
            final(self).is_encrypted == old(self).is_encrypted,
            match r {
                Ok(d) => {
                    &&& old(self).spec_decoded(source@) == Some(d@)
                    &&& d@.len() <= u32::MAX
                    &&& final(self).data matches PackedFileData::OnMemory(dd, c, e) && dd@ == d@
                        && c == false && e == false
                    &&& final(self).spec_decoded(source@) == Some(d@)
                },
                Err(e) => {
                    &&& *final(self) == *old(self)
                    &&& old(self).spec_decoded(source@) is None
                    &&& (e == Error::Io <==> old(self).spec_raw(source@) is None)
                    &&& (e == Error::Io || e == Error::CorruptData)
                },
            },
    {
        let d = match self.get_data(source) {
            Ok(d) => d,
            Err(e) => {
                return Err(e);
            },
        };
        proof {
            lemma_decoded_len_bound(*self, source@);
        }
        let kept = clone_bytes(&d);
        self.data = PackedFileData::OnMemory(kept, false, false);
        Ok(d)
    }

    /// Returns the in-memory body and its transform state: the bytes,
    /// whether they are still compressed and still obfuscated, and the
    /// transforms the owning archive expects to re-apply on save.
    /// Fails when the body is still on disk.
    pub fn get_data_and_info_from_memory(&self) -> (r: Result<
        (Vec<u8>, bool, bool, bool, Option<PFHVersion>),
        Error,
    >)
        ensures
            match r {
                Ok(t) => {
                    &&& self.data matches PackedFileData::OnMemory(d, c, e) && t.0@ == d@ && t.1
                        == c && t.2 == e
                    &&& t.3 == self.is_compressed
                    &&& t.4 == self.is_encrypted
                },
                Err(e) => e == Error::DataNotInMemory && self.data matches PackedFileData::OnDisk(
                    _,
                    _,
                ),
            },
    {
        match &self.data {
            PackedFileData::OnMemory(d, c, e) => Ok(
                (clone_bytes(d), *c, *e, self.is_compressed, self.is_encrypted),
            ),
            PackedFileData::OnDisk(_off, _size) => Err(Error::DataNotInMemory),
        }
    }

    /// Replaces the body with raw bytes carrying no transforms; a later
    /// save re-applies the archive's own policy, never the old one.
    pub fn set_data(&mut self, data: Vec<u8>)
        requires
            data@.len() <= u32::MAX,
        ensures
            final(self).wf(),
            final(self).path == old(self).path,
            final(self).timestamp == old(self).timestamp,
            final(self).is_compressed == old(self).is_compressed,
            final(self).is_encrypted == old(self).is_encrypted,
            final(self).data == PackedFileData::OnMemory(data, false, false),
    {
        self.data = PackedFileData::OnMemory(data, false, false);
    }

    /// The on-wire size for an on-disk body, the current length for an
    /// in-memory one; the two differ when compression differs.
    pub fn get_size(&self) -> (r: u32)
        requires
            self.wf(),
        ensures
            r == self.spec_size(),
    {
        match &self.data {
            PackedFileData::OnMemory(d, _c, _e) => d.len() as u32,
            PackedFileData::OnDisk(_off, size) => *size,
        }
    }
}

/// A decoded body always fits the index size field: a decompressed one
/// is bounded by its frame header, and an uncompressed one has the
/// length of its wire bytes.
pub proof fn lemma_decoded_len_bound(pf: PackedFile, source: Seq<u8>)
    requires
        pf.wf(),
        pf.spec_decoded(source) is Some,
    ensures
        pf.spec_decoded(source).unwrap().len() <= u32::MAX,
{
    let raw = pf.spec_raw(source).unwrap();
    assert(raw.len() <= u32::MAX) by {
        match pf.data {
            PackedFileData::OnMemory(d, _c, _e) => {},
            PackedFileData::OnDisk(off, size) => {},
        }
    }
}

} // verus!
