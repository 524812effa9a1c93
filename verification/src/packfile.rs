//! The archive container: header, bitmask, index and bodies.
//!
//! On the wire an archive is a header (magic, bitmask, entry count,
//! index size, and — when the extended-header bit is set — a creation
//! timestamp and the declared dependency-archive names), followed by
//! the index (one record per entry: an optional timestamp, a size field
//! whose two top bits mark per-entry obfuscation and compression, and
//! the NUL-terminated path), followed by the entry bodies concatenated
//! in index order.  The spec functions in this module define that
//! layout once; `open` and `save` are proved against them.

use vstd::prelude::*;

use crate::codec::{
    compress, decompress, deobfuscate, lemma_obfuscation_involution, obfuscate, spec_decompress,
    spec_obfuscate,
};
use crate::error::{Error, SaveError};
use crate::packedfile::{lemma_decoded_len_bound, PackedFile, PackedFileData};
use crate::version::{
    PFHVersion, BIT_DATA_COMPRESSED, BIT_DATA_ENCRYPTED, BIT_EXTENDED_HEADER, BIT_INDEX_ENCRYPTED,
    BIT_INDEX_TIMESTAMPS, MAX_WIRE_SIZE, SIZE_BIT_COMPRESSED, SIZE_BIT_ENCRYPTED,
};
use crate::wire::{
    bytes_eq, clone_bytes, copy_range, lemma_u32_le_roundtrip, lemma_u64_le_roundtrip, push_bytes,
    push_u32_le, push_u64_le, read_u32_le, read_u64_le, u32_from_le, u32_le_bytes, u64_from_le,
    u64_le_bytes,
};

verus! {

/// One parsed index record: path, timestamp, on-wire size, compressed
/// marker, obfuscated marker.
pub type IdxMeta = (Seq<u8>, u64, u32, bool, bool);

/// The abstract content of one entry: path, timestamp, compressed
/// marker, obfuscation version, raw on-wire bytes.
pub type EntryModel = (Seq<u8>, u64, bool, Option<PFHVersion>, Seq<u8>);

/// The abstract content of a whole archive: format version, bitmask,
/// creation timestamp, declared dependency names, entries.
pub type PackModel = (PFHVersion, u32, u64, Seq<Seq<u8>>, Seq<EntryModel>);

/// A path the index can carry: non-empty, and free of the NUL byte
/// that terminates it on the wire.
pub open spec fn spec_wf_path(p: Seq<u8>) -> bool {
    &&& p.len() >= 1
    &&& forall|i: int| 0 <= i < p.len() ==> p[i] != 0
}

/// No two records name the same path.
pub open spec fn spec_unique_paths(metas: Seq<IdxMeta>) -> bool {
    forall|i: int, j: int|
        0 <= i < j < metas.len() ==> (#[trigger] metas[i]).0 != (#[trigger] metas[j]).0
}

/// Parses `count` length-prefixed dependency names from the front of
/// `s`, returning them and the bytes consumed.
pub open spec fn spec_parse_deps(s: Seq<u8>, count: nat) -> Option<(Seq<Seq<u8>>, nat)>
    decreases count,
{
    if count == 0 {
        Some((Seq::empty(), 0))
    } else if s.len() < 4 {
        None
    } else {
        let len = u32_from_le(s.subrange(0, 4)) as nat;
        if s.len() < 4 + len {
            None
        } else {
            let name = s.subrange(4, 4 + len as int);
            match spec_parse_deps(s.skip(4 + len as int), (count - 1) as nat) {
                None => None,
                Some(p) => Some((seq![name] + p.0, 4 + len + p.1)),
            }
        }
    }
}

/// Position of the first NUL byte at or after `from`.
pub open spec fn spec_find_nul(s: Seq<u8>, from: nat) -> Option<nat>
    decreases s.len() - from,
{
    if from >= s.len() {
        None
    } else if s[from as int] == 0 {
        Some(from)
    } else {
        spec_find_nul(s, from + 1)
    }
}

/// Parses one index record from the front of `s`.  The two top bits of
/// the size field are only legal under a version whose bitmask may
/// carry the matching transform.
pub open spec fn spec_parse_idx_entry(s: Seq<u8>, has_ts: bool, v: PFHVersion) -> Option<
    (IdxMeta, nat),
> {
    let tslen: nat = if has_ts {
        8
    } else {
        0
    };
    if s.len() < tslen + 4 {
        None
    } else {
        let ts = if has_ts {
            u64_from_le(s.subrange(0, 8))
        } else {
            0
        };
        let sf = u32_from_le(s.subrange(tslen as int, tslen as int + 4));
        let size = sf & MAX_WIRE_SIZE;
        let comp = sf & SIZE_BIT_COMPRESSED != 0;
        let enc = sf & SIZE_BIT_ENCRYPTED != 0;
        if comp && v.spec_legal_bits() & BIT_DATA_COMPRESSED == 0 {
            None
        } else if enc && v.spec_legal_bits() & BIT_DATA_ENCRYPTED == 0 {
            None
        } else {
            match spec_find_nul(s, tslen + 4) {
                None => None,
                Some(j) => if j == tslen + 4 {
                    None
                } else {
                    Some(((s.subrange(tslen as int + 4, j as int), ts, size, comp, enc), j + 1))
                },
            }
        }
    }
}

/// Parses `count` index records from the front of `s`, returning them
/// and the bytes consumed.
pub open spec fn spec_parse_idx(s: Seq<u8>, count: nat, has_ts: bool, v: PFHVersion) -> Option<
    (Seq<IdxMeta>, nat),
>
    decreases count,
{
    if count == 0 {
        Some((Seq::empty(), 0))
    } else {
        match spec_parse_idx_entry(s, has_ts, v) {
            None => None,
            Some(e) => match spec_parse_idx(s.skip(e.1 as int), (count - 1) as nat, has_ts, v) {
                None => None,
                Some(p) => Some((seq![e.0] + p.0, e.1 + p.1)),
            },
        }
    }
}

/// Total on-wire size of the bodies the records describe.
pub open spec fn spec_total_wire(metas: Seq<IdxMeta>) -> int
    decreases metas.len(),
{
    if metas.len() == 0 {
        0
    } else {
        spec_total_wire(metas.drop_last()) + metas.last().2
    }
}

/// What one parsed record's body decodes to: de-obfuscation first,
/// then decompression.
pub open spec fn spec_entry_model_decoded(m: EntryModel) -> Option<Seq<u8>> {
    let plain = match m.3 {
        Some(v) => spec_obfuscate(m.4, v),
        None => m.4,
    };
    if m.2 {
        spec_decompress(plain)
    } else {
        Some(plain)
    }
}

/// Parses a whole archive buffer into its abstract content.  `None`
/// exactly when the buffer is malformed: unknown magic, a bitmask bit
/// the version may not carry, a truncated header, index or body
/// region, a malformed index record, a duplicate path, or trailing
/// bytes after the last body.
pub open spec fn spec_parse(src: Seq<u8>) -> Option<PackModel> {
    match spec_parse_header(src) {
        None => None,
        Some(h) => spec_parse_rest(src, h),
    }
}

/// The parsed header: version, bitmask, entry count, index size,
/// creation timestamp, dependency names, and where the index starts.
pub type HeaderModel = (PFHVersion, u32, nat, nat, u64, Seq<Seq<u8>>, nat);

/// Parses the fixed and extended header from the front of `src`.
pub open spec fn spec_parse_header(src: Seq<u8>) -> Option<HeaderModel> {
    if src.len() < 16 {
        None
    } else {
        match PFHVersion::spec_from_magic(u32_from_le(src.subrange(0, 4))) {
            None => None,
            Some(v) => {
                let bm = u32_from_le(src.subrange(4, 8));
                let count = u32_from_le(src.subrange(8, 12)) as nat;
                let isz = u32_from_le(src.subrange(12, 16)) as nat;
                if bm & !v.spec_legal_bits() != 0 {
                    None
                } else {
                    let ext = bm & BIT_EXTENDED_HEADER != 0;
                    if ext && src.len() < 28 {
                        None
                    } else {
                        let ts = if ext {
                            u64_from_le(src.subrange(16, 24))
                        } else {
                            0
                        };
                        let depcount: nat = if ext {
                            u32_from_le(src.subrange(24, 28)) as nat
                        } else {
                            0
                        };
                        let dstart: nat = if ext {
                            28
                        } else {
                            16
                        };
                        match spec_parse_deps(src.skip(dstart as int), depcount) {
                            None => None,
                            Some(dp) => Some((v, bm, count, isz, ts, dp.0, dstart + dp.1)),
                        }
                    }
                }
            },
        }
    }
}

/// Parses the index and body regions that follow a parsed header.
pub open spec fn spec_parse_rest(src: Seq<u8>, h: HeaderModel) -> Option<PackModel> {
    let v = h.0;
    let bm = h.1;
    let count = h.2;
    let isz = h.3;
    let hend = h.6;
    if src.len() < hend + isz {
        None
    } else {
        let region = src.subrange(hend as int, (hend + isz) as int);
        let idx = if bm & BIT_INDEX_ENCRYPTED != 0 {
            spec_obfuscate(region, v)
        } else {
            region
        };
        match spec_parse_idx(idx, count, bm & BIT_INDEX_TIMESTAMPS != 0, v) {
            None => None,
            Some(ip) => {
                let metas = ip.0;
                if ip.1 != isz {
                    None
                } else if !spec_unique_paths(metas) {
                    None
                } else {
                    let bstart = hend + isz;
                    if src.len() != bstart + spec_total_wire(metas) {
                        None
                    } else {
                        Some(
                            (
                                v,
                                bm,
                                h.4,
                                h.5,
                                Seq::new(
                                    metas.len(),
                                    |i: int|
                                        (
                                            metas[i].0,
                                            metas[i].1,
                                            metas[i].3,
                                            if metas[i].4 {
                                                Some(v)
                                            } else {
                                                None
                                            },
                                            src.subrange(
                                                bstart + spec_total_wire(metas.take(i)),
                                                bstart + spec_total_wire(metas.take(i))
                                                    + metas[i].2,
                                            ),
                                        ),
                                ),
                            ),
                        )
                    }
                }
            },
        }
    }
}

/// The wire bytes of one length-prefixed dependency name.
pub open spec fn spec_enc_dep(name: Seq<u8>) -> Seq<u8> {
    u32_le_bytes(name.len() as u32) + name
}

/// The wire bytes of a dependency-name list.
pub open spec fn spec_enc_deps(names: Seq<Seq<u8>>) -> Seq<u8>
    decreases names.len(),
{
    if names.len() == 0 {
        Seq::empty()
    } else {
        spec_enc_deps(names.drop_last()) + spec_enc_dep(names.last())
    }
}

/// The size field of one index record: the on-wire size with the two
/// transform marker bits.
pub open spec fn spec_size_flags(size: u32, comp: bool, enc: bool) -> u32 {
    size | (if comp {
        SIZE_BIT_COMPRESSED
    } else {
        0
    }) | (if enc {
        SIZE_BIT_ENCRYPTED
    } else {
        0
    })
}

/// The wire bytes of one index record.
pub open spec fn spec_enc_idx_entry(m: IdxMeta, has_ts: bool) -> Seq<u8> {
    (if has_ts {
        u64_le_bytes(m.1)
    } else {
        Seq::empty()
    }) + u32_le_bytes(spec_size_flags(m.2, m.3, m.4)) + m.0 + seq![0u8]
}

/// The wire bytes of a whole index.
pub open spec fn spec_enc_idx(metas: Seq<IdxMeta>, has_ts: bool) -> Seq<u8>
    decreases metas.len(),
{
    if metas.len() == 0 {
        Seq::empty()
    } else {
        spec_enc_idx(metas.drop_last(), has_ts) + spec_enc_idx_entry(metas.last(), has_ts)
    }
}

/// The concatenation of all entry bodies.
pub open spec fn spec_concat(bs: Seq<Seq<u8>>) -> Seq<u8>
    decreases bs.len(),
{
    if bs.len() == 0 {
        Seq::empty()
    } else {
        spec_concat(bs.drop_last()) + bs.last()
    }
}

/// A non-empty dependency list splits off its first name.
proof fn lemma_enc_deps_front(names: Seq<Seq<u8>>)
    requires
        names.len() > 0,
    ensures
        spec_enc_deps(names) == spec_enc_dep(names[0]) + spec_enc_deps(names.skip(1)),
    decreases names.len(),
{
    if names.len() == 1 {
        assert(names.drop_last() =~= Seq::<Seq<u8>>::empty());
        assert(names.skip(1) =~= Seq::<Seq<u8>>::empty());
        assert(spec_enc_dep(names[0]) + Seq::<u8>::empty() =~= spec_enc_dep(names[0]));
        assert(Seq::<u8>::empty() + spec_enc_dep(names[0]) =~= spec_enc_dep(names[0]));
    } else {
        let d = names.drop_last();
        lemma_enc_deps_front(d);
        assert(d[0] == names[0]);
        assert(names.skip(1).drop_last() =~= d.skip(1));
        assert(names.skip(1).last() == names.last());
        assert((spec_enc_dep(names[0]) + spec_enc_deps(d.skip(1))) + spec_enc_last_dep(names)
            =~= spec_enc_dep(names[0]) + (spec_enc_deps(d.skip(1)) + spec_enc_last_dep(names)));
    }
}

/// The last name's wire bytes; an abbreviation for the associativity
/// step above.
spec fn spec_enc_last_dep(names: Seq<Seq<u8>>) -> Seq<u8> {
    spec_enc_dep(names.last())
}

/// Parsing an encoded dependency list, whatever follows it, yields the
/// names and consumes exactly their wire bytes.
proof fn lemma_parse_deps_roundtrip(names: Seq<Seq<u8>>, rest: Seq<u8>)
    requires
        forall|i: int| 0 <= i < names.len() ==> (#[trigger] names[i]).len() <= u32::MAX,
    ensures
        spec_parse_deps(spec_enc_deps(names) + rest, names.len() as nat) == Some(
            (names, spec_enc_deps(names).len() as nat),
        ),
    decreases names.len(),
{
    if names.len() == 0 {
        assert(spec_enc_deps(names) + rest =~= rest);
        assert(names =~= Seq::<Seq<u8>>::empty());
    } else {
        lemma_enc_deps_front(names);
        let n0 = names[0];
        let tail = names.skip(1);
        assert(forall|i: int|
            0 <= i < tail.len() ==> (#[trigger] tail[i]).len() <= u32::MAX) by {
            assert(forall|i: int| 0 <= i < tail.len() ==> tail[i] == names[i + 1]);
        }
        lemma_parse_deps_roundtrip(tail, rest);
        let s = spec_enc_deps(names) + rest;
        let len = n0.len() as int;
        assert(s =~= spec_enc_dep(n0) + (spec_enc_deps(tail) + rest));
        assert(s.subrange(0, 4) =~= u32_le_bytes(n0.len() as u32));
        lemma_u32_le_roundtrip(n0.len() as u32);
        assert(s.subrange(4, 4 + len) =~= n0);
        assert(s.skip(4 + len) =~= spec_enc_deps(tail) + rest);
        assert(seq![n0] + tail =~= names);
    }
}

/// A non-empty index splits off its first record.
proof fn lemma_enc_idx_front(metas: Seq<IdxMeta>, has_ts: bool)
    requires
        metas.len() > 0,
    ensures
        spec_enc_idx(metas, has_ts) == spec_enc_idx_entry(metas[0], has_ts) + spec_enc_idx(
            metas.skip(1),
            has_ts,
        ),
    decreases metas.len(),
{
    if metas.len() == 1 {
        assert(metas.drop_last() =~= Seq::<IdxMeta>::empty());
        assert(metas.skip(1) =~= Seq::<IdxMeta>::empty());
        assert(spec_enc_idx_entry(metas[0], has_ts) + Seq::<u8>::empty() =~= spec_enc_idx_entry(
            metas[0],
            has_ts,
        ));
        assert(Seq::<u8>::empty() + spec_enc_idx_entry(metas[0], has_ts) =~= spec_enc_idx_entry(
            metas[0],
            has_ts,
        ));
    } else {
        let d = metas.drop_last();
        lemma_enc_idx_front(d, has_ts);
        assert(d[0] == metas[0]);
        assert(metas.skip(1).drop_last() =~= d.skip(1));
        assert(metas.skip(1).last() == metas.last());
        assert((spec_enc_idx_entry(metas[0], has_ts) + spec_enc_idx(d.skip(1), has_ts))
            + spec_enc_idx_entry(metas.last(), has_ts) =~= spec_enc_idx_entry(metas[0], has_ts) + (
        spec_enc_idx(d.skip(1), has_ts) + spec_enc_idx_entry(metas.last(), has_ts)));
    }
}

/// The marker bits of a size field decode to the size and flags they
/// were built from.
proof fn lemma_size_flags_roundtrip(size: u32, comp: bool, enc: bool)
    requires
        size <= MAX_WIRE_SIZE,
    ensures
        spec_size_flags(size, comp, enc) & MAX_WIRE_SIZE == size,
        (spec_size_flags(size, comp, enc) & SIZE_BIT_COMPRESSED != 0) == comp,
        (spec_size_flags(size, comp, enc) & SIZE_BIT_ENCRYPTED != 0) == enc,
{
    let cb: u32 = if comp {
        SIZE_BIT_COMPRESSED
    } else {
        0
    };
    let eb: u32 = if enc {
        SIZE_BIT_ENCRYPTED
    } else {
        0
    };
    assert((size | cb | eb) & 0x3FFF_FFFF == size && ((size | cb | eb) & 0x4000_0000 != 0) == (cb
        == 0x4000_0000) && ((size | cb | eb) & 0x8000_0000 != 0) == (eb == 0x8000_0000))
        by (bit_vector)
        requires
            size <= 0x3FFF_FFFFu32 && (cb == 0x4000_0000u32 || cb == 0u32) && (eb
                == 0x8000_0000u32 || eb == 0u32),
    ;
}

/// When a NUL stands at `j` and none before it from `from`, the scan
/// finds exactly `j`.
proof fn lemma_find_nul_at(s: Seq<u8>, from: nat, j: nat)
    requires
        from <= j < s.len(),
        s[j as int] == 0,
        forall|k: int| from <= k < j ==> s[k] != 0,
    ensures
        spec_find_nul(s, from) == Some(j),
    decreases j - from,
{
    if from < j {
        lemma_find_nul_at(s, from + 1, j);
    }
}

/// Parsing one encoded index record, whatever follows it, yields the
/// record and consumes exactly its wire bytes.
proof fn lemma_parse_idx_entry_roundtrip(m: IdxMeta, has_ts: bool, v: PFHVersion, rest: Seq<u8>)
    requires
        spec_wf_path(m.0),
        m.2 <= MAX_WIRE_SIZE,
        m.3 ==> v.spec_legal_bits() & BIT_DATA_COMPRESSED != 0,
        m.4 ==> v.spec_legal_bits() & BIT_DATA_ENCRYPTED != 0,
        !has_ts ==> m.1 == 0,
    ensures
        spec_parse_idx_entry(spec_enc_idx_entry(m, has_ts) + rest, has_ts, v) == Some(
            (m, spec_enc_idx_entry(m, has_ts).len() as nat),
        ),
{
    let s = spec_enc_idx_entry(m, has_ts) + rest;
    let tslen: int = if has_ts {
        8
    } else {
        0
    };
    let plen = m.0.len() as int;
    let sf = spec_size_flags(m.2, m.3, m.4);
    lemma_size_flags_roundtrip(m.2, m.3, m.4);
    if has_ts {
        assert(s.subrange(0, 8) =~= u64_le_bytes(m.1));
        lemma_u64_le_roundtrip(m.1);
    }
    assert(s.subrange(tslen, tslen + 4) =~= u32_le_bytes(sf));
    lemma_u32_le_roundtrip(sf);
    assert(s.subrange(tslen + 4, tslen + 4 + plen) =~= m.0);
    assert(s[tslen + 4 + plen] == 0);
    assert(forall|k: int| tslen + 4 <= k < tslen + 4 + plen ==> s[k] == m.0[k - (tslen + 4)]);
    lemma_find_nul_at(s, (tslen + 4) as nat, (tslen + 4 + plen) as nat);
    assert(spec_enc_idx_entry(m, has_ts).len() == tslen + 4 + plen + 1);
}

/// Parsing a whole encoded index, whatever follows it, yields the
/// records and consumes exactly their wire bytes.
#[verifier::rlimit(100)]
proof fn lemma_parse_idx_roundtrip(metas: Seq<IdxMeta>, has_ts: bool, v: PFHVersion, rest: Seq<u8>)
    requires
        forall|i: int| 0 <= i < metas.len() ==> spec_wf_path((#[trigger] metas[i]).0),
        forall|i: int| 0 <= i < metas.len() ==> (#[trigger] metas[i]).2 <= MAX_WIRE_SIZE,
        forall|i: int|
            0 <= i < metas.len() ==> ((#[trigger] metas[i]).3 ==> v.spec_legal_bits()
                & BIT_DATA_COMPRESSED != 0),
        forall|i: int|
            0 <= i < metas.len() ==> ((#[trigger] metas[i]).4 ==> v.spec_legal_bits()
                & BIT_DATA_ENCRYPTED != 0),
        forall|i: int| 0 <= i < metas.len() ==> (!has_ts ==> (#[trigger] metas[i]).1 == 0),
    ensures
        spec_parse_idx(spec_enc_idx(metas, has_ts) + rest, metas.len() as nat, has_ts, v) == Some(
            (metas, spec_enc_idx(metas, has_ts).len() as nat),
        ),
    decreases metas.len(),
{
    if metas.len() == 0 {
        assert(metas =~= Seq::<IdxMeta>::empty());
    } else {
        lemma_enc_idx_front(metas, has_ts);
        let m0 = metas[0];
        let tail = metas.skip(1);
        assert(forall|i: int| 0 <= i < tail.len() ==> tail[i] == metas[i + 1]);
        lemma_parse_idx_roundtrip(tail, has_ts, v, rest);
        let s = spec_enc_idx(metas, has_ts) + rest;
        let e0 = spec_enc_idx_entry(m0, has_ts);
        assert(s =~= e0 + (spec_enc_idx(tail, has_ts) + rest));
        lemma_parse_idx_entry_roundtrip(m0, has_ts, v, spec_enc_idx(tail, has_ts) + rest);
        assert(s.skip(e0.len() as int) =~= spec_enc_idx(tail, has_ts) + rest);
        assert(seq![m0] + tail =~= metas);
    }
}

/// Extracting body `i` out of the concatenation by the recorded sizes
/// yields exactly that body; the concatenation's length is the total
/// recorded size.
proof fn lemma_concat_extract(bs: Seq<Seq<u8>>, metas: Seq<IdxMeta>, i: int)
    requires
        bs.len() == metas.len(),
        forall|k: int| 0 <= k < bs.len() ==> (#[trigger] bs[k]).len() == metas[k].2,
        0 <= i < bs.len(),
    ensures
        spec_concat(bs).len() == spec_total_wire(metas),
        spec_concat(bs).subrange(
            spec_total_wire(metas.take(i)),
            spec_total_wire(metas.take(i)) + metas[i].2,
        ) == bs[i],
    decreases bs.len(),
{
    lemma_concat_len(bs, metas);
    if i == bs.len() - 1 {
        assert(metas.take(i) =~= metas.drop_last());
        lemma_concat_len(bs.drop_last(), metas.drop_last());
        assert(spec_concat(bs).subrange(
            spec_total_wire(metas.drop_last()),
            spec_total_wire(metas.drop_last()) + metas[i].2,
        ) =~= bs[i]);
    } else {
        assert(bs.drop_last().len() == metas.drop_last().len());
        assert(forall|k: int|
            0 <= k < bs.drop_last().len() ==> (#[trigger] bs.drop_last()[k]).len()
                == metas.drop_last()[k].2);
        lemma_concat_extract(bs.drop_last(), metas.drop_last(), i);
        lemma_concat_len(bs.drop_last(), metas.drop_last());
        lemma_total_wire_prefix(metas.drop_last(), i);
        lemma_total_wire_nonneg(metas.take(i));
        assert(metas.take(i) =~= metas.drop_last().take(i));
        assert(bs.drop_last()[i] == bs[i]);
        assert(metas.drop_last()[i] == metas[i]);
        let x = spec_total_wire(metas.take(i));
        let y = x + metas[i].2;
        assert(y <= spec_total_wire(metas.drop_last()));
        assert(spec_concat(bs) == spec_concat(bs.drop_last()) + bs.last());
        assert(spec_concat(bs).subrange(x, y) =~= spec_concat(bs.drop_last()).subrange(x, y));
    }
}

/// The concatenation's length is the total recorded size.
proof fn lemma_concat_len(bs: Seq<Seq<u8>>, metas: Seq<IdxMeta>)
    requires
        bs.len() == metas.len(),
        forall|k: int| 0 <= k < bs.len() ==> (#[trigger] bs[k]).len() == metas[k].2,
    ensures
        spec_concat(bs).len() == spec_total_wire(metas),
    decreases bs.len(),
{
    if bs.len() > 0 {
        assert(forall|k: int|
            0 <= k < bs.drop_last().len() ==> (#[trigger] bs.drop_last()[k]).len()
                == metas.drop_last()[k].2);
        lemma_concat_len(bs.drop_last(), metas.drop_last());
    }
}

/// Within a record list, the total size of a prefix plus the next
/// record's size never exceeds the total of the whole list.
proof fn lemma_total_wire_prefix(metas: Seq<IdxMeta>, i: int)
    requires
        0 <= i < metas.len(),
    ensures
        spec_total_wire(metas.take(i)) + metas[i].2 <= spec_total_wire(metas),
        spec_total_wire(metas.take(i + 1)) == spec_total_wire(metas.take(i)) + metas[i].2,
        spec_total_wire(metas) >= 0,
    decreases metas.len(),
{
    lemma_total_wire_nonneg(metas);
    assert(metas.take(i + 1).drop_last() =~= metas.take(i));
    assert(metas.take(i + 1).last() == metas[i]);
    if i == metas.len() - 1 {
        assert(metas.take(i) =~= metas.drop_last());
        assert(metas.take(i + 1) =~= metas);
    } else {
        lemma_total_wire_prefix(metas.drop_last(), i);
        assert(metas.drop_last().take(i) =~= metas.take(i));
        assert(metas.drop_last().take(i + 1) =~= metas.take(i + 1));
        assert(metas.drop_last()[i] == metas[i]);
    }
}

/// A total of sizes is never negative.
proof fn lemma_total_wire_nonneg(metas: Seq<IdxMeta>)
    ensures
        spec_total_wire(metas) >= 0,
    decreases metas.len(),
{
    if metas.len() > 0 {
        lemma_total_wire_nonneg(metas.drop_last());
    }
}

/// When no NUL stands at or after `from`, the scan finds nothing.
proof fn lemma_find_nul_none(s: Seq<u8>, from: nat)
    requires
        from <= s.len(),
        forall|k: int| from <= k < s.len() ==> s[k] != 0,
    ensures
        spec_find_nul(s, from) is None,
    decreases s.len() - from,
{
    if from < s.len() {
        lemma_find_nul_none(s, from + 1);
    }
}

/// One index record as the exec parser holds it.
struct IdxEntry {
    path: Vec<u8>,
    timestamp: u64,
    size: u32,
    compressed: bool,
    encrypted: bool,
}

impl IdxEntry {
    /// The record's abstract content.
    spec fn meta(self) -> IdxMeta {
        (self.path@, self.timestamp, self.size, self.compressed, self.encrypted)
    }
}

/// The abstract content of a parsed record list.
spec fn metas_of(es: Seq<IdxEntry>) -> Seq<IdxMeta> {
    Seq::new(es.len(), |i: int| es[i].meta())
}

/// Parses `count` length-prefixed dependency names starting at `start`.
fn parse_deps_exec(src: &Vec<u8>, start: usize, count: u32) -> (r: Result<
    (Vec<Vec<u8>>, usize),
    Error,
>)
    requires
        start <= src@.len(),
    ensures
        match r {
            Ok(p) => {
                &&& start <= p.1 <= src@.len()
                &&& spec_parse_deps(src@.skip(start as int), count as nat) == Some(
                    (p.0.deep_view(), (p.1 - start) as nat),
                )
                &&& forall|i: int|
                    0 <= i < p.0@.len() ==> (#[trigger] p.0@[i])@.len() <= u32::MAX
                &&& p.0@.len() == count
            },
            Err(e) => e == Error::CorruptData && spec_parse_deps(
                src@.skip(start as int),
                count as nat,
            ) is None,
        },
{
    let n = src.len();
    let mut names: Vec<Vec<u8>> = Vec::new();
    let mut pos = start;
    let mut k: u32 = 0;
    while k < count
        invariant
            start <= pos <= n,
            n == src@.len(),
            k <= count,
            names@.len() == k,
            forall|i: int| 0 <= i < names@.len() ==> (#[trigger] names@[i])@.len() <= u32::MAX,
            spec_parse_deps(src@.skip(start as int), count as nat) == (match spec_parse_deps(
                src@.skip(pos as int),
                (count - k) as nat,
            ) {
                None => None::<(Seq<Seq<u8>>, nat)>,
                Some(p) => Some((names.deep_view() + p.0, ((pos - start) + p.1) as nat)),
            }),
        decreases count - k,
    {
        let ghost rem = src@.skip(pos as int);
        let (len, p2) = match read_u32_le(src, pos) {
            Some(x) => x,
            None => {
                proof {
                    assert(rem.len() < 4);
                }
                return Err(Error::CorruptData);
            },
        };
        proof {
            assert(rem.subrange(0, 4) =~= src@.subrange(pos as int, pos + 4));
        }
        let name = match copy_range(src, p2, len as usize) {
            Some(x) => x,
            None => {
                proof {
                    assert(rem.len() < 4 + len);
                }
                return Err(Error::CorruptData);
            },
        };
        let ghost old_names = names.deep_view();
        let ghost old_pos = pos as int;
        names.push(name);
        pos = p2 + len as usize;
        k = k + 1;
        proof {
            assert(name@ =~= rem.subrange(4, 4 + len as int));
            assert(rem.skip(4 + len as int) =~= src@.skip(pos as int));
            assert(names.deep_view() =~~= old_names.push(name@));
            let c = (count - (k - 1)) as nat;
            assert(spec_parse_deps(rem, c) == (match spec_parse_deps(
                src@.skip(pos as int),
                (count - k) as nat,
            ) {
                None => None::<(Seq<Seq<u8>>, nat)>,
                Some(p) => Some((seq![name@] + p.0, (4 + len + p.1) as nat)),
            }));
            assert(match spec_parse_deps(src@.skip(pos as int), (count - k) as nat) {
                None => true,
                Some(p) => old_names + (seq![name@] + p.0) =~= names.deep_view() + p.0,
            });
        }
    }
    proof {
        assert(src@.skip(pos as int).len() == n - pos);
        assert(names.deep_view() + Seq::<Seq<u8>>::empty() =~= names.deep_view());
    }
    Ok((names, pos))
}

/// Parses exactly `count` index records spanning the whole of `idx`.
#[verifier::rlimit(100)]
fn parse_idx_exec(idx: &Vec<u8>, count: u32, has_ts: bool, v: PFHVersion) -> (r: Result<
    Vec<IdxEntry>,
    Error,
>)
    ensures
        match r {
            Ok(es) => {
                &&& spec_parse_idx(idx@, count as nat, has_ts, v) == Some(
                    (metas_of(es@), idx@.len() as nat),
                )
                &&& es@.len() == count
                &&& forall|i: int| 0 <= i < es@.len() ==> spec_wf_path((#[trigger] es@[i]).path@)
                &&& forall|i: int| 0 <= i < es@.len() ==> (#[trigger] es@[i]).size <= MAX_WIRE_SIZE
                &&& forall|i: int|
                    0 <= i < es@.len() ==> ((#[trigger] es@[i]).compressed ==> v.spec_legal_bits()
                        & BIT_DATA_COMPRESSED != 0)
                &&& forall|i: int|
                    0 <= i < es@.len() ==> ((#[trigger] es@[i]).encrypted ==> v.spec_legal_bits()
                        & BIT_DATA_ENCRYPTED != 0)
            },
            Err(e) => e == Error::CorruptData && (match spec_parse_idx(
                idx@,
                count as nat,
                has_ts,
                v,
            ) {
                None => true,
                Some(p) => p.1 != idx@.len(),
            }),
        },
{
    let n = idx.len();
    let mut es: Vec<IdxEntry> = Vec::new();
    let mut pos: usize = 0;
    let mut k: u32 = 0;
    proof {
        assert(idx@.skip(0) =~= idx@);
        assert(metas_of(es@) =~= Seq::<IdxMeta>::empty());
        assert(match spec_parse_idx(idx@, count as nat, has_ts, v) {
            None => true,
            Some(p) => metas_of(es@) + p.0 =~= p.0,
        });
    }
    while k < count
        invariant
            pos <= n,
            n == idx@.len(),
            k <= count,
            es@.len() == k,
            forall|i: int| 0 <= i < es@.len() ==> spec_wf_path((#[trigger] es@[i]).path@),
            forall|i: int| 0 <= i < es@.len() ==> (#[trigger] es@[i]).size <= MAX_WIRE_SIZE,
            forall|i: int|
                0 <= i < es@.len() ==> ((#[trigger] es@[i]).compressed ==> v.spec_legal_bits()
                    & BIT_DATA_COMPRESSED != 0),
            forall|i: int|
                0 <= i < es@.len() ==> ((#[trigger] es@[i]).encrypted ==> v.spec_legal_bits()
                    & BIT_DATA_ENCRYPTED != 0),
            spec_parse_idx(idx@, count as nat, has_ts, v) == (match spec_parse_idx(
                idx@.skip(pos as int),
                (count - k) as nat,
                has_ts,
                v,
            ) {
                None => None::<(Seq<IdxMeta>, nat)>,
                Some(p) => Some((metas_of(es@) + p.0, (pos + p.1) as nat)),
            }),
        decreases count - k,
    {
        let ghost rem = idx@.skip(pos as int);
        let ghost tslen: int = if has_ts {
            8
        } else {
            0
        };
        let ts: u64 = if has_ts {
            match read_u64_le(idx, pos) {
                Some(x) => x.0,
                None => {
                    proof {
                        assert(rem.len() < tslen + 4);
                    }
                    return Err(Error::CorruptData);
                },
            }
        } else {
            0
        };
        let fpos = if has_ts {
            pos + 8
        } else {
            pos
        };
        let sf = match read_u32_le(idx, fpos) {
            Some(x) => x.0,
            None => {
                proof {
                    assert(rem.len() < tslen + 4);
                }
                return Err(Error::CorruptData);
            },
        };
        proof {
            if has_ts {
                assert(rem.subrange(0, 8) =~= idx@.subrange(pos as int, pos + 8));
            }
            assert(rem.subrange(tslen, tslen + 4) =~= idx@.subrange(fpos as int, fpos + 4));
        }
        let size = sf & MAX_WIRE_SIZE;
        let compressed = sf & SIZE_BIT_COMPRESSED != 0;
        let encrypted = sf & SIZE_BIT_ENCRYPTED != 0;
        proof {
            assert(sf & 0x3FFF_FFFFu32 <= 0x3FFF_FFFFu32) by (bit_vector);
        }
        if compressed && v.legal_bits() & BIT_DATA_COMPRESSED == 0 {
            return Err(Error::CorruptData);
        }
        if encrypted && v.legal_bits() & BIT_DATA_ENCRYPTED == 0 {
            return Err(Error::CorruptData);
        }
        let ppos = fpos + 4;
        let mut j = ppos;
        while j < n && *idx.get(j).unwrap() != 0
            invariant
                ppos <= j <= n,
                n == idx@.len(),
                forall|q: int| ppos <= q < j ==> idx@[q] != 0,
            decreases n - j,
        {
            j = j + 1;
        }
        if j == n {
            proof {
                lemma_find_nul_none(rem, (tslen + 4) as nat);
            }
            return Err(Error::CorruptData);
        }
        proof {
            lemma_find_nul_at(rem, (tslen + 4) as nat, (j - pos) as nat);
        }
        if j == ppos {
            return Err(Error::CorruptData);
        }
        let path = match copy_range(idx, ppos, j - ppos) {
            Some(x) => x,
            None => {
                proof {
                    assert(false);
                }
                return Err(Error::CorruptData);
            },
        };
        let ghost old_metas = metas_of(es@);
        let ghost old_pos = pos as int;
        let entry = IdxEntry { path, timestamp: ts, size, compressed, encrypted };
        let ghost m = entry.meta();
        proof {
            assert(entry.path@ =~= rem.subrange(tslen + 4, j - pos));
            assert(spec_parse_idx_entry(rem, has_ts, v) == Some((m, (j + 1 - pos) as nat)));
        }
        es.push(entry);
        pos = j + 1;
        k = k + 1;
        proof {
            assert(rem.skip(j + 1 - old_pos) =~= idx@.skip(pos as int));
            assert(metas_of(es@) =~~= old_metas.push(m));
            let c = (count - (k - 1)) as nat;
            assert(spec_parse_idx(rem, c, has_ts, v) == (match spec_parse_idx(
                idx@.skip(pos as int),
                (count - k) as nat,
                has_ts,
                v,
            ) {
                None => None::<(Seq<IdxMeta>, nat)>,
                Some(p) => Some((seq![m] + p.0, ((j + 1 - old_pos) + p.1) as nat)),
            }));
            assert(match spec_parse_idx(idx@.skip(pos as int), (count - k) as nat, has_ts, v) {
                None => true,
                Some(p) => old_metas + (seq![m] + p.0) =~= metas_of(es@) + p.0,
            });
        }
    }
    proof {
        assert(idx@.skip(pos as int).len() == n - pos);
        assert(metas_of(es@) + Seq::<IdxMeta>::empty() =~= metas_of(es@));
    }
    if pos != n {
        return Err(Error::CorruptData);
    }
    Ok(es)
}

/// A named, versioned archive container: format version, bitmask
/// flags, creation timestamp, on-disk name, declared dependency-archive
/// names, an optional free-text note, the entries in index order, and
/// the backing buffer the archive was opened from (empty for a new,
/// unsaved archive).
pub struct PackFile {
    pub pfh_version: PFHVersion,
    pub bitmask: u32,
    pub timestamp: u64,
    pub file_name: Vec<u8>,
    pub pack_files: Vec<Vec<u8>>,
    pub notes: Option<Vec<u8>>,
    pub packed_files: Vec<PackedFile>,
    pub source: Vec<u8>,
}

/// The abstract content of one held entry.
pub open spec fn spec_entry_model(e: PackedFile, src: Seq<u8>) -> EntryModel {
    (
        e.path@,
        e.timestamp,
        e.spec_wire_compressed(),
        if e.spec_wire_encrypted() {
            Some(e.spec_enc_version())
        } else {
            None
        },
        match e.spec_raw(src) {
            Some(r) => r,
            None => Seq::empty(),
        },
    )
}

impl PackFile {
    /// The archive's abstract content.
    pub open spec fn spec_model(self) -> PackModel {
        (
            self.pfh_version,
            self.bitmask,
            self.timestamp,
            self.pack_files.deep_view(),
            Seq::new(
                self.packed_files@.len(),
                |i: int| spec_entry_model(self.packed_files@[i], self.source@),
            ),
        )
    }

    /// Structural soundness of the whole archive: only legal bitmask
    /// bits, counts and name lengths that fit their wire fields, sound
    /// entries whose on-disk bodies lie inside the backing buffer, and
    /// well-formed, pairwise distinct paths.
    pub open spec fn wf(self) -> bool {
        &&& self.bitmask & !self.pfh_version.spec_legal_bits() == 0
        &&& self.packed_files@.len() <= u32::MAX
        &&& self.pack_files@.len() <= u32::MAX
        &&& forall|i: int|
            0 <= i < self.pack_files@.len() ==> (#[trigger] self.pack_files@[i])@.len()
                <= u32::MAX
        &&& forall|i: int| 0 <= i < self.packed_files@.len() ==> (#[trigger] self.packed_files@[i]).wf()
        &&& forall|i: int|
            0 <= i < self.packed_files@.len() ==> (#[trigger] self.packed_files@[i]).spec_raw(
                self.source@,
            ) is Some
        &&& forall|i: int|
            0 <= i < self.packed_files@.len() ==> spec_wf_path(
                (#[trigger] self.packed_files@[i]).path@,
            )
        &&& forall|i: int, j: int|
            0 <= i < j < self.packed_files@.len() ==> (#[trigger] self.packed_files@[i]).path@ != (
            #[trigger] self.packed_files@[j]).path@
    }

    /// A new, empty, unsaved archive of the newest revision.
    pub fn new() -> (r: Self)
        ensures
            r.wf(),
            r.pfh_version == PFHVersion::PFH5,
            r.bitmask == 0u32,
            r.packed_files@.len() == 0,
            r.pack_files@.len() == 0,
            r.notes is None,
            r.file_name@ == Seq::<u8>::empty(),
    {
        proof {
            let m = PFHVersion::PFH5.spec_legal_bits();
            assert(0u32 & !m == 0u32) by (bit_vector);
        }
        PackFile {
            pfh_version: PFHVersion::PFH5,
            bitmask: 0,
            timestamp: 0,
            file_name: Vec::new(),
            pack_files: Vec::new(),
            notes: None,
            packed_files: Vec::new(),
            source: Vec::new(),
        }
    }

    /// A new, empty archive carrying a name and a format version.
    pub fn new_with_name(name: Vec<u8>, version: PFHVersion) -> (r: Self)
        ensures
            r.wf(),
            r.pfh_version == version,
            r.bitmask == 0u32,
            r.packed_files@.len() == 0,
            r.file_name@ == name@,
    {
        let mut pf = Self::new();
        pf.file_name = name;
        pf.pfh_version = version;
        proof {
            let m = version.spec_legal_bits();
            assert(0u32 & !m == 0u32) by (bit_vector);
        }
        pf
    }

    /// Opens one archive from the bytes of its file.  When `lazy` is
    /// set, entry bodies stay on the backing buffer until first read;
    /// either way the archive's abstract content is exactly what
    /// [`spec_parse`] gives for the buffer, so laziness never changes
    /// what any entry decodes to.
    #[verifier::rlimit(100)]
    #[verifier::loop_isolation(false)]
    pub fn open(source: Vec<u8>, lazy: bool) -> (r: Result<PackFile, Error>)
        ensures
            match r {
                Ok(pf) => {
                    &&& pf.wf()
                    &&& spec_parse(source@) == Some(pf.spec_model())
                    &&& pf.source@ == source@
                    &&& pf.notes is None
                    &&& pf.file_name@ == Seq::<u8>::empty()
                    &&& !lazy ==> forall|i: int|
                        0 <= i < pf.packed_files@.len() ==> (#[trigger] pf.packed_files@[i]).data
                            matches PackedFileData::OnMemory(_d, _c, _e)
                },
                Err(e) => e == Error::CorruptData && spec_parse(source@) is None,
            },
    {
        let n = source.len();
        let magic = match read_u32_le(&source, 0) {
            Some(x) => x.0,
            None => {
                return Err(Error::CorruptData);
            },
        };
        let bm = match read_u32_le(&source, 4) {
            Some(x) => x.0,
            None => {
                return Err(Error::CorruptData);
            },
        };
        let count = match read_u32_le(&source, 8) {
            Some(x) => x.0,
            None => {
                return Err(Error::CorruptData);
            },
        };
        let isz = match read_u32_le(&source, 12) {
            Some(x) => x.0,
            None => {
                return Err(Error::CorruptData);
            },
        };
        let v = match PFHVersion::from_magic(magic) {
            Some(v) => v,
            None => {
                return Err(Error::CorruptData);
            },
        };
        if bm & !v.legal_bits() != 0 {
            return Err(Error::CorruptData);
        }
        let ext = bm & BIT_EXTENDED_HEADER != 0;
        let mut ts: u64 = 0;
        let mut depcount: u32 = 0;
        let dstart: usize = if ext {
            28
        } else {
            16
        };
        if ext {
            ts = match read_u64_le(&source, 16) {
                Some(x) => x.0,
                None => {
                    return Err(Error::CorruptData);
                },
            };
            depcount = match read_u32_le(&source, 24) {
                Some(x) => x.0,
                None => {
                    return Err(Error::CorruptData);
                },
            };
        }
        let (deps, hend) = match parse_deps_exec(&source, dstart, depcount) {
            Ok(p) => p,
            Err(e) => {
                return Err(Error::CorruptData);
            },
        };
        if isz as usize > n - hend {
            return Err(Error::CorruptData);
        }
        let region = match copy_range(&source, hend, isz as usize) {
            Some(x) => x,
            None => {
                proof {
                    assert(false);
                }
                return Err(Error::CorruptData);
            },
        };
        let idx = if bm & BIT_INDEX_ENCRYPTED != 0 {
            deobfuscate(&region, v)
        } else {
            region
        };
        let es = match parse_idx_exec(&idx, count, bm & BIT_INDEX_TIMESTAMPS != 0, v) {
            Ok(es) => es,
            Err(e) => {
                return Err(Error::CorruptData);
            },
        };
        if !paths_unique(&es) {
            return Err(Error::CorruptData);
        }
        let ghost metas = metas_of(es@);
        let bstart = hend + isz as usize;
        let mut entries: Vec<PackedFile> = Vec::new();
        let mut bpos: usize = bstart;
        let mut k: usize = 0;
        proof {
            assert(metas.take(0) =~= Seq::<IdxMeta>::empty());
        }
        while k < es.len()
            invariant
                k <= es@.len(),
                es@.len() == count,
                n == source@.len(),
                bstart <= bpos <= n,
                bpos == bstart + spec_total_wire(metas.take(k as int)),
                metas == metas_of(es@),
                entries@.len() == k,
                forall|i: int| 0 <= i < es@.len() ==> spec_wf_path((#[trigger] es@[i]).path@),
                forall|i: int| 0 <= i < es@.len() ==> (#[trigger] es@[i]).size <= MAX_WIRE_SIZE,
                forall|i: int| 0 <= i < k ==> (#[trigger] entries@[i]).wf(),
                forall|i: int|
                    0 <= i < k ==> (#[trigger] entries@[i]).spec_raw(source@) is Some,
                !lazy ==> forall|i: int|
                    0 <= i < k ==> (#[trigger] entries@[i]).data matches PackedFileData::OnMemory(
                        _d,
                        _c,
                        _e,
                    ),
                forall|i: int| 0 <= i < k ==> (#[trigger] entries@[i]).path@ == metas[i].0,
                forall|i: int|
                    0 <= i < k ==> spec_entry_model(#[trigger] entries@[i], source@) == (
                        metas[i].0,
                        metas[i].1,
                        metas[i].3,
                        if metas[i].4 {
                            Some(v)
                        } else {
                            None
                        },
                        source@.subrange(
                            bstart + spec_total_wire(metas.take(i)),
                            bstart + spec_total_wire(metas.take(i)) + metas[i].2,
                        ),
                    ),
            decreases es@.len() - k,
        {
            let size = es[k].size;
            if (size as usize) > n - bpos {
                proof {
                    lemma_total_wire_prefix(metas, k as int);
                    lemma_total_wire_mono(metas, (k + 1) as int);
                }
                return Err(Error::CorruptData);
            }
            let compressed = es[k].compressed;
            let encrypted = es[k].encrypted;
            let timestamp = es[k].timestamp;
            let path = clone_bytes(&es[k].path);
            let data = if lazy {
                PackedFileData::OnDisk(bpos as u64, size)
            } else {
                match copy_range(&source, bpos, size as usize) {
                    Some(raw) => PackedFileData::OnMemory(raw, compressed, encrypted),
                    None => {
                        proof {
                            assert(false);
                        }
                        return Err(Error::CorruptData);
                    },
                }
            };
            let entry = PackedFile {
                path,
                timestamp,
                is_compressed: compressed,
                is_encrypted: if encrypted {
                    Some(v)
                } else {
                    None
                },
                data,
            };
            entries.push(entry);
            proof {
                lemma_total_wire_prefix(metas, k as int);
            }
            bpos = bpos + size as usize;
            k = k + 1;
        }
        if bpos != n {
            proof {
                assert(metas.take(count as int) =~= metas);
            }
            return Err(Error::CorruptData);
        }
        let pf = PackFile {
            pfh_version: v,
            bitmask: bm,
            timestamp: ts,
            file_name: Vec::new(),
            pack_files: deps,
            notes: None,
            packed_files: entries,
            source,
        };
        proof {
            assert(metas.take(count as int) =~= metas);
            let m = pf.spec_model();
            assert(m.4 =~~= Seq::new(
                metas.len(),
                |i: int|
                    (
                        metas[i].0,
                        metas[i].1,
                        metas[i].3,
                        if metas[i].4 {
                            Some(v)
                        } else {
                            None
                        },
                        pf.source@.subrange(
                            bstart + spec_total_wire(metas.take(i)),
                            bstart + spec_total_wire(metas.take(i)) + metas[i].2,
                        ),
                    ),
            ));
        }
        Ok(pf)
    }
}

/// The views of a sequence of byte vectors.
pub open spec fn views_of(s: Seq<Vec<u8>>) -> Seq<Seq<u8>> {
    Seq::new(s.len(), |i: int| s[i]@)
}

impl PackFile {
    /// Whether saving writes per-entry timestamps into the index.
    pub open spec fn spec_has_ts(self) -> bool {
        self.bitmask & BIT_INDEX_TIMESTAMPS != 0
    }

    /// Whether saving writes the extended header block.
    pub open spec fn spec_ext(self) -> bool {
        self.bitmask & BIT_EXTENDED_HEADER != 0
    }

    /// Whether saving compresses entry bodies.
    pub open spec fn spec_comp_policy(self) -> bool {
        self.bitmask & BIT_DATA_COMPRESSED != 0
    }

    /// Whether saving obfuscates entry bodies.
    pub open spec fn spec_enc_policy(self) -> bool {
        self.bitmask & BIT_DATA_ENCRYPTED != 0
    }

    /// What entry `i` decodes to.
    pub open spec fn spec_entry_decoded(self, i: int) -> Option<Seq<u8>> {
        self.packed_files@[i].spec_decoded(self.source@)
    }

    /// What every entry decodes to, where it decodes at all.
    pub open spec fn spec_decoded_views(self) -> Seq<Seq<u8>> {
        Seq::new(
            self.packed_files@.len(),
            |i: int|
                match self.spec_entry_decoded(i) {
                    Some(d) => d,
                    None => Seq::empty(),
                },
        )
    }

    /// The index records a save writes, given the re-encoded bodies.
    pub open spec fn spec_save_metas(self, wv: Seq<Seq<u8>>) -> Seq<IdxMeta> {
        Seq::new(
            self.packed_files@.len(),
            |i: int|
                (
                    self.packed_files@[i].path@,
                    if self.spec_has_ts() {
                        self.packed_files@[i].timestamp
                    } else {
                        0
                    },
                    wv[i].len() as u32,
                    self.spec_comp_policy(),
                    self.spec_enc_policy(),
                ),
        )
    }

    /// Re-encodes every entry body under the archive's current policy:
    /// decode the stored transforms away, then compress and obfuscate
    /// as the bitmask asks.  The entries themselves are not touched.
    #[verifier::loop_isolation(false)]
    fn encode_bodies(&self) -> (r: Result<Vec<Vec<u8>>, SaveError>)
        requires
            self.wf(),
        ensures
            match r {
                Ok(ws) => {
                    &&& ws@.len() == self.packed_files@.len()
                    &&& forall|i: int|
                        0 <= i < ws@.len() ==> (#[trigger] ws@[i])@.len() <= MAX_WIRE_SIZE
                    &&& forall|i: int|
                        0 <= i < ws@.len() ==> (#[trigger] self.spec_entry_decoded(i)) is Some
                    &&& forall|i: int|
                        0 <= i < ws@.len() ==> ({
                            let plain = if self.spec_enc_policy() {
                                spec_obfuscate((#[trigger] ws@[i])@, self.pfh_version)
                            } else {
                                ws@[i]@
                            };
                            if self.spec_comp_policy() {
                                spec_decompress(plain) == Some(self.spec_entry_decoded(i).unwrap())
                            } else {
                                plain == self.spec_entry_decoded(i).unwrap()
                            }
                        })
                    &&& !self.spec_comp_policy() ==> forall|i: int|
                        0 <= i < ws@.len() ==> (#[trigger] ws@[i])@.len()
                            == self.spec_entry_decoded(i).unwrap().len()
                },
                Err(e) => {
                    &&& (e == SaveError::CorruptData || e == SaveError::EntryTooLarge)
                    &&& (e == SaveError::CorruptData ==> exists|i: int|
                        0 <= i < self.packed_files@.len() && (#[trigger] self.spec_entry_decoded(
                            i,
                        )) is None)
                },
            },
            (!self.spec_comp_policy() && (forall|i: int|
                0 <= i < self.packed_files@.len() ==> (#[trigger] self.spec_entry_decoded(i))
                    is Some && self.spec_entry_decoded(i).unwrap().len() <= MAX_WIRE_SIZE))
                ==> r is Ok,
    {
        let n = self.packed_files.len();
        let mut ws: Vec<Vec<u8>> = Vec::new();
        let mut k: usize = 0;
        while k < n
            invariant
                k <= n,
                ws@.len() == k,
                forall|i: int| 0 <= i < k ==> (#[trigger] ws@[i])@.len() <= MAX_WIRE_SIZE,
                forall|i: int| 0 <= i < k ==> (#[trigger] self.spec_entry_decoded(i)) is Some,
                forall|i: int|
                    0 <= i < k ==> ({
                        let plain = if self.spec_enc_policy() {
                            spec_obfuscate((#[trigger] ws@[i])@, self.pfh_version)
                        } else {
                            ws@[i]@
                        };
                        if self.spec_comp_policy() {
                            spec_decompress(plain) == Some(self.spec_entry_decoded(i).unwrap())
                        } else {
                            plain == self.spec_entry_decoded(i).unwrap()
                        }
                    }),
                !self.spec_comp_policy() ==> forall|i: int|
                    0 <= i < k ==> (#[trigger] ws@[i])@.len() == self.spec_entry_decoded(
                        i,
                    ).unwrap().len(),
            decreases n - k,
        {
            let decoded = match self.packed_files[k].get_data(&self.source) {
                Ok(d) => d,
                Err(_e) => {
                    proof {
                        assert(self.spec_entry_decoded(k as int) is None);
                    }
                    return Err(SaveError::CorruptData);
                },
            };
            proof {
                lemma_decoded_len_bound(self.packed_files@[k as int], self.source@);
            }
            let w1 = if self.bitmask & BIT_DATA_COMPRESSED != 0 {
                compress(&decoded)
            } else {
                decoded
            };
            let wire = if self.bitmask & BIT_DATA_ENCRYPTED != 0 {
                proof {
                    lemma_obfuscation_involution(w1@, self.pfh_version);
                }
                obfuscate(&w1, self.pfh_version)
            } else {
                w1
            };
            if wire.len() > MAX_WIRE_SIZE as usize {
                proof {
                    assert(self.spec_entry_decoded(k as int) is Some);
                }
                return Err(SaveError::EntryTooLarge);
            }
            ws.push(wire);
            k = k + 1;
        }
        Ok(ws)
    }

    /// Builds the plain (not yet obfuscated) index for the re-encoded
    /// bodies.
    #[verifier::loop_isolation(false)]
    fn build_index(&self, ws: &Vec<Vec<u8>>) -> (out: Vec<u8>)
        requires
            self.wf(),
            ws@.len() == self.packed_files@.len(),
            forall|i: int| 0 <= i < ws@.len() ==> (#[trigger] ws@[i])@.len() <= MAX_WIRE_SIZE,
        ensures
            out@ == spec_enc_idx(self.spec_save_metas(views_of(ws@)), self.spec_has_ts()),
    {
        let n = self.packed_files.len();
        let has_ts = self.bitmask & BIT_INDEX_TIMESTAMPS != 0;
        let ghost metas = self.spec_save_metas(views_of(ws@));
        let mut out: Vec<u8> = Vec::new();
        let mut k: usize = 0;
        proof {
            assert(metas.take(0) =~= Seq::<IdxMeta>::empty());
        }
        while k < n
            invariant
                k <= n,
                out@ == spec_enc_idx(metas.take(k as int), self.spec_has_ts()),
            decreases n - k,
        {
            let ghost before = out@;
            if has_ts {
                push_u64_le(&mut out, self.packed_files[k].timestamp);
            }
            let size = ws[k].len() as u32;
            let sf = size | (if self.bitmask & BIT_DATA_COMPRESSED != 0 {
                SIZE_BIT_COMPRESSED
            } else {
                0
            }) | (if self.bitmask & BIT_DATA_ENCRYPTED != 0 {
                SIZE_BIT_ENCRYPTED
            } else {
                0
            });
            push_u32_le(&mut out, sf);
            push_bytes(&mut out, &self.packed_files[k].path);
            out.push(0u8);
            proof {
                assert(sf == spec_size_flags(metas[k as int].2, metas[k as int].3, metas[
                    k as int].4));
                assert(out@ =~= before + spec_enc_idx_entry(metas[k as int], self.spec_has_ts()));
                assert(metas.take(k + 1).drop_last() =~= metas.take(k as int));
                assert(metas.take(k + 1).last() == metas[k as int]);
            }
            k = k + 1;
        }
        proof {
            assert(metas.take(n as int) =~= metas);
        }
        out
    }

    /// Concatenates the re-encoded bodies in index order.
    #[verifier::loop_isolation(false)]
    fn concat_bodies(ws: &Vec<Vec<u8>>) -> (out: Vec<u8>)
        ensures
            out@ == spec_concat(views_of(ws@)),
    {
        let n = ws.len();
        let ghost wv = views_of(ws@);
        let mut out: Vec<u8> = Vec::new();
        let mut k: usize = 0;
        proof {
            assert(wv.take(0) =~= Seq::<Seq<u8>>::empty());
        }
        while k < n
            invariant
                k <= n,
                out@ == spec_concat(wv.take(k as int)),
            decreases n - k,
        {
            push_bytes(&mut out, &ws[k]);
            proof {
                assert(wv.take(k + 1).drop_last() =~= wv.take(k as int));
                assert(wv.take(k + 1).last() == wv[k as int]);
            }
            k = k + 1;
        }
        proof {
            assert(wv.take(n as int) =~= wv);
        }
        out
    }

    /// Serialises the whole archive into the bytes of its file,
    /// re-encoding every body under the current bitmask policy.  The
    /// archive itself is untouched, and nothing is produced at all
    /// when any entry fails to re-encode, so a caller can never
    /// truncate a destination with a half-written archive.
    ///
    /// Parsing the produced buffer back yields the same version,
    /// bitmask, dependency names and paths, and every re-encoded body
    /// still decodes to exactly what the entry decodes to now.
    #[verifier::rlimit(100)]
    #[verifier::loop_isolation(false)]
    pub fn save(&self) -> (r: Result<Vec<u8>, SaveError>)
        requires
            self.wf(),
        ensures
            match r {
                Ok(b) => (match spec_parse(b@) {
                    Some(m) => {
                        &&& m.0 == self.pfh_version
                        &&& m.1 == self.bitmask
                        &&& m.2 == (if self.spec_ext() {
                            self.timestamp
                        } else {
                            0
                        })
                        &&& m.3 == (if self.spec_ext() {
                            self.pack_files.deep_view()
                        } else {
                            Seq::<Seq<u8>>::empty()
                        })
                        &&& m.4.len() == self.packed_files@.len()
                        &&& forall|i: int|
                            0 <= i < m.4.len() ==> (#[trigger] m.4[i]).0
                                == self.packed_files@[i].path@
                        &&& forall|i: int|
                            0 <= i < m.4.len() ==> (#[trigger] m.4[i]).1 == (
                            if self.spec_has_ts() {
                                self.packed_files@[i].timestamp
                            } else {
                                0
                            })
                        &&& forall|i: int|
                            0 <= i < m.4.len() ==> (#[trigger] m.4[i]).2
                                == self.spec_comp_policy()
                        &&& forall|i: int|
                            0 <= i < m.4.len() ==> (#[trigger] m.4[i]).3 == (
                            if self.spec_enc_policy() {
                                Some(self.pfh_version)
                            } else {
                                None
                            })
                        &&& forall|i: int|
                            0 <= i < m.4.len() ==> spec_entry_model_decoded(#[trigger] m.4[i])
                                == self.spec_entry_decoded(i)
                    },
                    None => false,
                }),
                Err(e) => {
                    &&& (e == SaveError::CorruptData || e == SaveError::EntryTooLarge)
                    &&& (e == SaveError::CorruptData ==> exists|i: int|
                        0 <= i < self.packed_files@.len() && (#[trigger] self.spec_entry_decoded(
                            i,
                        )) is None)
                },
            },
            (!self.spec_comp_policy() && (forall|i: int|
                0 <= i < self.packed_files@.len() ==> (#[trigger] self.spec_entry_decoded(i))
                    is Some && self.spec_entry_decoded(i).unwrap().len() <= MAX_WIRE_SIZE)
                && spec_enc_idx(
                self.spec_save_metas(self.spec_decoded_views()),
                self.spec_has_ts(),
            ).len() <= u32::MAX) ==> r is Ok,
    {
        let version = self.pfh_version;
        let bm = self.bitmask;
        let n = self.packed_files.len();
        let ws = match self.encode_bodies() {
            Ok(ws) => ws,
            Err(e) => {
                return Err(e);
            },
        };
        let ghost wv = views_of(ws@);
        let ghost metas = self.spec_save_metas(wv);
        let index_plain = self.build_index(&ws);
        let index = if bm & BIT_INDEX_ENCRYPTED != 0 {
            proof {
                lemma_obfuscation_involution(index_plain@, version);
            }
            obfuscate(&index_plain, version)
        } else {
            index_plain
        };
        if index.len() > u32::MAX as usize {
            proof {
                if !self.spec_comp_policy() {
                    assert(forall|i: int|
                        0 <= i < wv.len() ==> (#[trigger] wv[i]).len()
                            == self.spec_decoded_views()[i].len()) by {
                        assert(forall|i: int|
                            0 <= i < wv.len() ==> #[trigger] wv[i] == ws@[i]@);
                    }
                    assert(metas =~~= self.spec_save_metas(self.spec_decoded_views()));
                    assert(index@.len() == spec_enc_idx(metas, self.spec_has_ts()).len());
                }
            }
            return Err(SaveError::EntryTooLarge);
        }
        let isz = index.len() as u32;
        let bodies = Self::concat_bodies(&ws);
        let ext = bm & BIT_EXTENDED_HEADER != 0;
        let mut out: Vec<u8> = Vec::new();
        push_u32_le(&mut out, version.magic());
        push_u32_le(&mut out, bm);
        push_u32_le(&mut out, n as u32);
        push_u32_le(&mut out, isz);
        if ext {
            push_u64_le(&mut out, self.timestamp);
            let dn = self.pack_files.len();
            push_u32_le(&mut out, dn as u32);
            let ghost dv = self.pack_files.deep_view();
            let ghost hdr28 = out@;
            let mut k: usize = 0;
            proof {
                assert(dv.take(0) =~= Seq::<Seq<u8>>::empty());
            }
            while k < dn
                invariant
                    k <= dn,
                    out@ == hdr28 + spec_enc_deps(dv.take(k as int)),
                decreases dn - k,
            {
                let ghost before = out@;
                push_u32_le(&mut out, self.pack_files[k].len() as u32);
                push_bytes(&mut out, &self.pack_files[k]);
                proof {
                    assert(dv[k as int] == self.pack_files@[k as int]@);
                    assert(out@ =~= before + spec_enc_dep(dv[k as int]));
                    assert(dv.take(k + 1).drop_last() =~= dv.take(k as int));
                    assert(dv.take(k + 1).last() == dv[k as int]);
                    assert(hdr28 + spec_enc_deps(dv.take(k as int)) + spec_enc_dep(dv[k as int])
                        =~= hdr28 + (spec_enc_deps(dv.take(k as int)) + spec_enc_dep(
                        dv[k as int],
                    )));
                }
                k = k + 1;
            }
            proof {
                assert(dv.take(dn as int) =~= dv);
            }
        }
        let ghost hdr = out@;
        push_bytes(&mut out, &index);
        push_bytes(&mut out, &bodies);
        proof {
            assert(hdr =~= spec_header_bytes(*self, isz));
            assert(out@ =~= spec_header_bytes(*self, isz) + index@ + bodies@);
            lemma_save_parses(*self, wv, index@, bodies@, out@);
            let m = spec_parse(out@).unwrap();
            assert forall|i: int|
                0 <= i < m.4.len() implies spec_entry_model_decoded(#[trigger] m.4[i])
                == self.spec_entry_decoded(i) by {
                assert(ws@[i]@ == wv[i]);
                assert(m.4[i] == (
                    self.packed_files@[i].path@,
                    if self.spec_has_ts() {
                        self.packed_files@[i].timestamp
                    } else {
                        0
                    },
                    self.spec_comp_policy(),
                    if self.spec_enc_policy() {
                        Some(self.pfh_version)
                    } else {
                        None
                    },
                    wv[i],
                ));
            }
        }
        Ok(out)
    }
}

/// The bytes of the header a save writes, given the index size.
pub open spec fn spec_header_bytes(pf: PackFile, isz: u32) -> Seq<u8> {
    u32_le_bytes(pf.pfh_version.spec_magic()) + u32_le_bytes(pf.bitmask) + u32_le_bytes(
        pf.packed_files@.len() as u32,
    ) + u32_le_bytes(isz) + (if pf.spec_ext() {
        u64_le_bytes(pf.timestamp) + u32_le_bytes(pf.pack_files@.len() as u32) + spec_enc_deps(
            pf.pack_files.deep_view(),
        )
    } else {
        Seq::<u8>::empty()
    })
}

/// A saved buffer parses back to the archive's own content: same
/// version, bitmask, timestamp and dependency names, and one record
/// per entry carrying its path, timestamp and re-encoded body.
#[verifier::rlimit(100)]
proof fn lemma_save_parses(pf: PackFile, wv: Seq<Seq<u8>>, index: Seq<u8>, bodies: Seq<u8>, b: Seq<
    u8,
>)
    requires
        pf.wf(),
        wv.len() == pf.packed_files@.len(),
        forall|i: int| 0 <= i < wv.len() ==> (#[trigger] wv[i]).len() <= MAX_WIRE_SIZE,
        (if pf.bitmask & BIT_INDEX_ENCRYPTED != 0 {
            index == spec_obfuscate(
                spec_enc_idx(pf.spec_save_metas(wv), pf.spec_has_ts()),
                pf.pfh_version,
            )
        } else {
            index == spec_enc_idx(pf.spec_save_metas(wv), pf.spec_has_ts())
        }),
        index.len() <= u32::MAX,
        bodies == spec_concat(wv),
        b == spec_header_bytes(pf, index.len() as u32) + index + bodies,
    ensures
        spec_parse(b) matches Some(m)
            && m.0 == pf.pfh_version
            && m.1 == pf.bitmask
            && m.2 == (if pf.spec_ext() {
            pf.timestamp
        } else {
            0
        })
            && m.3 == (if pf.spec_ext() {
            pf.pack_files.deep_view()
        } else {
            Seq::<Seq<u8>>::empty()
        })
            && m.4.len() == pf.packed_files@.len()
            && (forall|i: int|
            0 <= i < m.4.len() ==> (#[trigger] m.4[i]) == (
                pf.packed_files@[i].path@,
                if pf.spec_has_ts() {
                    pf.packed_files@[i].timestamp
                } else {
                    0
                },
                pf.spec_comp_policy(),
                if pf.spec_enc_policy() {
                    Some(pf.pfh_version)
                } else {
                    None
                },
                wv[i],
            )),
{
    let version = pf.pfh_version;
    let bm = pf.bitmask;
    let metas = pf.spec_save_metas(wv);
    let has_ts = pf.spec_has_ts();
    let ext = pf.spec_ext();
    let isz = index.len() as int;
    let n = pf.packed_files@.len() as int;
    let dstart: int = if ext {
        28
    } else {
        16
    };
    let dv = pf.pack_files.deep_view();
    let encd = if ext {
        spec_enc_deps(dv)
    } else {
        Seq::<u8>::empty()
    };
    let hend = dstart + encd.len();
    let h: HeaderModel = (
        version,
        bm,
        n as nat,
        isz as nat,
        if ext {
            pf.timestamp
        } else {
            0
        },
        if ext {
            dv
        } else {
            Seq::<Seq<u8>>::empty()
        },
        hend as nat,
    );
    lemma_save_header(pf, wv, index, bodies, b);
    assert(spec_parse_header(b) == Some(h));
    assert(b.subrange(hend, hend + isz) =~= index) by {
        assert(spec_header_bytes(pf, index.len() as u32).len() == hend);
    }
    let idxp = spec_enc_idx(metas, has_ts);
    if bm & BIT_INDEX_ENCRYPTED != 0 {
        lemma_obfuscation_involution(idxp, version);
        assert(spec_obfuscate(index, version) == idxp);
    }
    assert(forall|i: int| 0 <= i < metas.len() ==> spec_wf_path((#[trigger] metas[i]).0));
    assert(forall|i: int| 0 <= i < metas.len() ==> (#[trigger] metas[i]).2 <= MAX_WIRE_SIZE);
    let lb = version.spec_legal_bits();
    assert((bm & !lb == 0 && bm & 0x2u32 != 0) ==> lb & 0x2u32 != 0) by (bit_vector);
    assert((bm & !lb == 0 && bm & 0x10u32 != 0) ==> lb & 0x10u32 != 0) by (bit_vector);
    lemma_parse_idx_roundtrip(metas, has_ts, version, Seq::<u8>::empty());
    assert(idxp + Seq::<u8>::empty() =~= idxp);
    assert(spec_unique_paths(metas));
    let bstart = hend + isz;
    assert(forall|i: int| 0 <= i < wv.len() ==> (#[trigger] wv[i]).len() == metas[i].2);
    lemma_concat_len(wv, metas);
    assert(b.len() == bstart + spec_total_wire(metas));
    assert forall|i: int| 0 <= i < metas.len() implies b.subrange(
        bstart + spec_total_wire(metas.take(i)),
        bstart + spec_total_wire(metas.take(i)) + metas[i].2,
    ) == wv[i] by {
        lemma_concat_extract(wv, metas, i);
        lemma_total_wire_prefix(metas, i);
        lemma_total_wire_nonneg(metas.take(i));
        lemma_total_wire_mono(metas, i + 1);
        assert(b.subrange(
            bstart + spec_total_wire(metas.take(i)),
            bstart + spec_total_wire(metas.take(i)) + metas[i].2,
        ) =~= bodies.subrange(
            spec_total_wire(metas.take(i)),
            spec_total_wire(metas.take(i)) + metas[i].2,
        ));
    }
    assert(spec_parse_rest(b, h) is Some);
    assert(spec_parse(b) == spec_parse_rest(b, h));
    let m = spec_parse_rest(b, h).unwrap();
    assert(m.4 =~~= Seq::new(
        metas.len(),
        |i: int|
            (
                metas[i].0,
                metas[i].1,
                metas[i].3,
                if metas[i].4 {
                    Some(version)
                } else {
                    None
                },
                b.subrange(
                    bstart + spec_total_wire(metas.take(i)),
                    bstart + spec_total_wire(metas.take(i)) + metas[i].2,
                ),
            ),
    ));
}

/// The header a save writes parses back to the archive's own header
/// fields.
#[verifier::rlimit(100)]
proof fn lemma_save_header(pf: PackFile, wv: Seq<Seq<u8>>, index: Seq<u8>, bodies: Seq<u8>, b: Seq<
    u8,
>)
    requires
        pf.wf(),
        index.len() <= u32::MAX,
        b == spec_header_bytes(pf, index.len() as u32) + index + bodies,
    ensures
        spec_parse_header(b) == Some(
            (
                pf.pfh_version,
                pf.bitmask,
                pf.packed_files@.len() as nat,
                index.len() as nat,
                if pf.spec_ext() {
                    pf.timestamp
                } else {
                    0
                },
                if pf.spec_ext() {
                    pf.pack_files.deep_view()
                } else {
                    Seq::<Seq<u8>>::empty()
                },
                (spec_header_bytes(pf, index.len() as u32).len()) as nat,
            ),
        ),
{
    let version = pf.pfh_version;
    let bm = pf.bitmask;
    let ext = pf.spec_ext();
    let n = pf.packed_files@.len() as int;
    let dstart: int = if ext {
        28
    } else {
        16
    };
    let dv = pf.pack_files.deep_view();
    let encd = if ext {
        spec_enc_deps(dv)
    } else {
        Seq::<u8>::empty()
    };
    let hdr = spec_header_bytes(pf, index.len() as u32);
    assert(hdr.len() == dstart + encd.len());
    assert(b.subrange(0, 4) =~= u32_le_bytes(version.spec_magic()));
    assert(b.subrange(4, 8) =~= u32_le_bytes(bm));
    assert(b.subrange(8, 12) =~= u32_le_bytes(n as u32));
    assert(b.subrange(12, 16) =~= u32_le_bytes(index.len() as u32));
    lemma_u32_le_roundtrip(version.spec_magic());
    lemma_u32_le_roundtrip(bm);
    lemma_u32_le_roundtrip(n as u32);
    lemma_u32_le_roundtrip(index.len() as u32);
    assert(PFHVersion::spec_from_magic(version.spec_magic()) == Some(version));
    if ext {
        assert(b.subrange(16, 24) =~= u64_le_bytes(pf.timestamp));
        lemma_u64_le_roundtrip(pf.timestamp);
        assert(b.subrange(24, 28) =~= u32_le_bytes(pf.pack_files@.len() as u32));
        lemma_u32_le_roundtrip(pf.pack_files@.len() as u32);
    }
    assert(b.skip(dstart) =~= encd + (index + bodies));
    if ext {
        assert(forall|i: int| 0 <= i < dv.len() ==> (#[trigger] dv[i]).len() <= u32::MAX) by {
            assert(forall|i: int| 0 <= i < dv.len() ==> dv[i] == pf.pack_files@[i]@);
        }
        lemma_parse_deps_roundtrip(dv, index + bodies);
    }
}


/// The abstract content of a list of entries, given a backing buffer.
pub open spec fn spec_models(entries: Seq<PackedFile>, src: Seq<u8>) -> Seq<EntryModel> {
    Seq::new(entries.len(), |i: int| spec_entry_model(entries[i], src))
}

/// Whether some entry model carries the path.
pub open spec fn spec_model_has(es: Seq<EntryModel>, p: Seq<u8>) -> bool {
    exists|i: int| 0 <= i < es.len() && (#[trigger] es[i]).0 == p
}

/// The index of the entry model carrying the path, under uniqueness
/// the only one.
pub open spec fn spec_model_index(es: Seq<EntryModel>, p: Seq<u8>) -> int {
    choose|i: int| 0 <= i < es.len() && (#[trigger] es[i]).0 == p
}

/// The entry model carrying the path, if any.
pub open spec fn spec_model_find(es: Seq<EntryModel>, p: Seq<u8>) -> Option<EntryModel> {
    if spec_model_has(es, p) {
        Some(es[spec_model_index(es, p)])
    } else {
        None
    }
}

/// No two entry models carry the same path.
pub open spec fn spec_models_unique(es: Seq<EntryModel>) -> bool {
    forall|i: int, j: int| 0 <= i < j < es.len() ==> (#[trigger] es[i]).0 != (#[trigger] es[j]).0
}

/// One merge step: the new entry replaces the one at its path, or is
/// appended when the path is new.
pub open spec fn spec_add_model(acc: Seq<EntryModel>, e: EntryModel) -> Seq<EntryModel> {
    if spec_model_has(acc, e.0) {
        acc.update(spec_model_index(acc, e.0), e)
    } else {
        acc.push(e)
    }
}

/// Merges a list of entries into an accumulator, in order.
pub open spec fn spec_merge_into(acc: Seq<EntryModel>, es: Seq<EntryModel>) -> Seq<EntryModel>
    decreases es.len(),
{
    if es.len() == 0 {
        acc
    } else {
        spec_add_model(spec_merge_into(acc, es.drop_last()), es.last())
    }
}

/// Merges whole archives in the order given: entries of later archives
/// shadow earlier ones at the same path.
pub open spec fn spec_merge_models(ms: Seq<Seq<EntryModel>>) -> Seq<EntryModel>
    decreases ms.len(),
{
    if ms.len() == 0 {
        Seq::empty()
    } else {
        spec_merge_into(spec_merge_models(ms.drop_last()), ms.last())
    }
}

/// One merge step keeps paths unique and changes lookups at exactly
/// the new entry's path.
proof fn lemma_add_model_find(acc: Seq<EntryModel>, e: EntryModel, p: Seq<u8>)
    requires
        spec_models_unique(acc),
    ensures
        spec_models_unique(spec_add_model(acc, e)),
        spec_model_find(spec_add_model(acc, e), p) == (if p == e.0 {
            Some(e)
        } else {
            spec_model_find(acc, p)
        }),
{
    let out = spec_add_model(acc, e);
    if spec_model_has(acc, e.0) {
        let i = spec_model_index(acc, e.0);
        assert(0 <= i < acc.len() && acc[i].0 == e.0);
        assert(forall|j: int| 0 <= j < out.len() && j != i ==> out[j] == acc[j]);
        assert(out[i] == e);
        assert(spec_models_unique(out));
        if p == e.0 {
            assert(spec_model_has(out, p));
            let k = spec_model_index(out, p);
            assert(0 <= k < out.len() && out[k].0 == p);
            assert(k == i);
        } else {
            if spec_model_has(out, p) {
                let k = spec_model_index(out, p);
                assert(0 <= k < out.len() && out[k].0 == p);
                assert(k != i);
                assert(acc[k].0 == p);
                assert(spec_model_has(acc, p));
                assert(spec_model_index(acc, p) == k);
            }
            if spec_model_has(acc, p) {
                let k = spec_model_index(acc, p);
                assert(0 <= k < acc.len() && acc[k].0 == p);
                assert(k != i);
                assert(out[k].0 == p);
                assert(spec_model_has(out, p));
                assert(spec_model_index(out, p) == k);
            }
        }
    } else {
        assert(out == acc.push(e));
        assert(forall|j: int| 0 <= j < acc.len() ==> out[j] == acc[j]);
        assert(out[acc.len() as int] == e);
        assert(forall|j: int| 0 <= j < acc.len() ==> (#[trigger] acc[j]).0 != e.0);
        assert(spec_models_unique(out));
        if p == e.0 {
            assert(spec_model_has(out, p));
            let k = spec_model_index(out, p);
            assert(k == acc.len());
        } else {
            if spec_model_has(out, p) {
                let k = spec_model_index(out, p);
                assert(0 <= k < out.len() && out[k].0 == p);
                assert(k != acc.len());
                assert(spec_model_has(acc, p));
                assert(spec_model_index(acc, p) == k);
            }
            if spec_model_has(acc, p) {
                let k = spec_model_index(acc, p);
                assert(out[k].0 == p);
                assert(spec_model_has(out, p));
                assert(spec_model_index(out, p) == k);
            }
        }
    }
}

/// Merging a uniquely-pathed list keeps uniqueness, and a lookup hits
/// the list's own entry where it has the path, the accumulator's
/// entry otherwise.
pub proof fn lemma_merge_into_find(acc: Seq<EntryModel>, es: Seq<EntryModel>, p: Seq<u8>)
    requires
        spec_models_unique(acc),
        spec_models_unique(es),
    ensures
        spec_models_unique(spec_merge_into(acc, es)),
        spec_model_find(spec_merge_into(acc, es), p) == (if spec_model_has(es, p) {
            spec_model_find(es, p)
        } else {
            spec_model_find(acc, p)
        }),
    decreases es.len(),
{
    if es.len() == 0 {
        assert(!spec_model_has(es, p));
    } else {
        let d = es.drop_last();
        let e = es.last();
        assert(spec_models_unique(d)) by {
            assert(forall|j: int| 0 <= j < d.len() ==> d[j] == es[j]);
        }
        lemma_merge_into_find(acc, d, p);
        lemma_add_model_find(spec_merge_into(acc, d), e, p);
        if p == e.0 {
            assert(spec_model_has(es, p));
            let k = spec_model_index(es, p);
            assert(0 <= k < es.len() && es[k].0 == p);
            assert(forall|j: int| 0 <= j < es.len() - 1 ==> (#[trigger] es[j]).0 != e.0);
            assert(k == es.len() - 1);
            assert(spec_model_find(es, p) == Some(e));
        } else {
            assert(spec_model_has(es, p) == spec_model_has(d, p)) by {
                if spec_model_has(es, p) {
                    let k = spec_model_index(es, p);
                    assert(0 <= k < es.len() && es[k].0 == p);
                    assert(k != es.len() - 1);
                    assert(d[k].0 == p);
                }
                if spec_model_has(d, p) {
                    let k = spec_model_index(d, p);
                    assert(es[k].0 == p);
                }
            }
            if spec_model_has(es, p) {
                let k = spec_model_index(es, p);
                assert(0 <= k < es.len() && es[k].0 == p);
                assert(k != es.len() - 1);
                assert(d[k].0 == p);
                assert(spec_model_index(d, p) == k);
                assert(spec_model_find(es, p) == spec_model_find(d, p));
            }
        }
    }
}

/// Merging entries whose paths are pairwise new simply appends them.
proof fn lemma_merge_into_disjoint(acc: Seq<EntryModel>, es: Seq<EntryModel>)
    requires
        spec_models_unique(es),
        forall|i: int| 0 <= i < es.len() ==> !spec_model_has(acc, (#[trigger] es[i]).0),
    ensures
        spec_merge_into(acc, es) == acc + es,
    decreases es.len(),
{
    if es.len() == 0 {
        assert(acc + es =~= acc);
    } else {
        let d = es.drop_last();
        let e = es.last();
        assert(spec_models_unique(d)) by {
            assert(forall|j: int| 0 <= j < d.len() ==> d[j] == es[j]);
        }
        assert(forall|i: int| 0 <= i < d.len() ==> !spec_model_has(acc, (#[trigger] d[i]).0)) by {
            assert(forall|j: int| 0 <= j < d.len() ==> d[j] == es[j]);
        }
        lemma_merge_into_disjoint(acc, d);
        let m = acc + d;
        assert(!spec_model_has(m, e.0)) by {
            if spec_model_has(m, e.0) {
                let k = spec_model_index(m, e.0);
                assert(0 <= k < m.len() && m[k].0 == e.0);
                if k < acc.len() {
                    assert(acc[k].0 == e.0);
                    assert(spec_model_has(acc, e.0));
                } else {
                    assert(d[k - acc.len()].0 == e.0);
                    assert(es[k - acc.len()].0 == es[es.len() - 1].0);
                }
            }
        }
        assert(spec_add_model(m, e) == m.push(e));
        assert(m.push(e) =~= acc + es);
    }
}

/// Opening `[A, B]` together resolves a path both archives declare to
/// B's entry; opening `[B, A]` resolves it to A's: the later archive
/// always shadows the earlier one.
pub proof fn lemma_merge_shadowing(a: Seq<EntryModel>, b: Seq<EntryModel>, p: Seq<u8>)
    requires
        spec_models_unique(a),
        spec_models_unique(b),
        spec_model_has(a, p),
        spec_model_has(b, p),
    ensures
        spec_model_find(spec_merge_models(seq![a, b]), p) == spec_model_find(b, p),
        spec_model_find(spec_merge_models(seq![b, a]), p) == spec_model_find(a, p),
{
    lemma_merge_pair(a, b);
    lemma_merge_pair(b, a);
    assert(spec_models_unique(Seq::<EntryModel>::empty()));
    lemma_merge_into_find(Seq::empty(), a, p);
    lemma_merge_into_find(spec_merge_into(Seq::empty(), a), b, p);
    lemma_merge_into_find(Seq::empty(), b, p);
    lemma_merge_into_find(spec_merge_into(Seq::empty(), b), a, p);
}

/// Merging exactly two archives is one merge into the other.
proof fn lemma_merge_pair(a: Seq<EntryModel>, b: Seq<EntryModel>)
    ensures
        spec_merge_models(seq![a, b]) == spec_merge_into(spec_merge_into(Seq::empty(), a), b),
{
    let ab = seq![a, b];
    assert(ab.len() == 2 && ab.last() == b);
    assert(ab.drop_last() =~= seq![a]);
    assert(spec_merge_models(ab) == spec_merge_into(spec_merge_models(seq![a]), b));
    let sa = seq![a];
    assert(sa.len() == 1 && sa.last() == a);
    assert(sa.drop_last() =~= Seq::<Seq<EntryModel>>::empty());
    assert(spec_merge_models(sa) == spec_merge_into(
        spec_merge_models(Seq::<Seq<EntryModel>>::empty()),
        a,
    ));
    assert(spec_merge_models(Seq::<Seq<EntryModel>>::empty()) == Seq::<EntryModel>::empty());
}

/// A fresh entry equal to the given one in every observable respect.
fn clone_entry(e: &PackedFile) -> (r: PackedFile)
    ensures
        r.path@ == e.path@,
        r.timestamp == e.timestamp,
        r.is_compressed == e.is_compressed,
        r.is_encrypted == e.is_encrypted,
        match e.data {
            PackedFileData::OnMemory(d, c, en) => r.data matches PackedFileData::OnMemory(
                d2,
                c2,
                e2,
            ) && d2@ == d@ && c2 == c && e2 == en,
            PackedFileData::OnDisk(o, sz) => r.data == PackedFileData::OnDisk(o, sz),
        },
        e.wf() ==> r.wf(),
        forall|src: Seq<u8>| spec_entry_model(r, src) == #[trigger] spec_entry_model(*e, src),
{
    let data = match &e.data {
        PackedFileData::OnMemory(d, c, en) => PackedFileData::OnMemory(clone_bytes(d), *c, *en),
        PackedFileData::OnDisk(o, sz) => PackedFileData::OnDisk(*o, *sz),
    };
    PackedFile {
        path: clone_bytes(&e.path),
        timestamp: e.timestamp,
        is_compressed: e.is_compressed,
        is_encrypted: e.is_encrypted,
        data,
    }
}

/// One merge step never shrinks the accumulator.
proof fn lemma_add_model_len(acc: Seq<EntryModel>, e: EntryModel)
    ensures
        spec_add_model(acc, e).len() >= acc.len(),
{
}

/// Merging a list never shrinks the accumulator.
proof fn lemma_merge_into_len(acc: Seq<EntryModel>, es: Seq<EntryModel>)
    ensures
        spec_merge_into(acc, es).len() >= acc.len(),
    decreases es.len(),
{
    if es.len() > 0 {
        lemma_merge_into_len(acc, es.drop_last());
        lemma_add_model_len(spec_merge_into(acc, es.drop_last()), es.last());
    }
}

/// Merging a concatenation is merging its parts in turn.
proof fn lemma_merge_into_append(acc: Seq<EntryModel>, a: Seq<EntryModel>, b: Seq<EntryModel>)
    ensures
        spec_merge_into(acc, a + b) == spec_merge_into(spec_merge_into(acc, a), b),
    decreases b.len(),
{
    if b.len() == 0 {
        assert(a + b =~= a);
    } else {
        lemma_merge_into_append(acc, a, b.drop_last());
        assert((a + b).drop_last() =~= a + b.drop_last());
        assert((a + b).last() == b.last());
    }
}

/// A prefix of the archive list never merges to more entries than the
/// whole list.
proof fn lemma_merge_models_prefix_len(ms: Seq<Seq<EntryModel>>, k: int)
    requires
        0 <= k <= ms.len(),
    ensures
        spec_merge_models(ms.take(k)).len() <= spec_merge_models(ms).len(),
    decreases ms.len() - k,
{
    if k == ms.len() {
        assert(ms.take(k) =~= ms);
    } else {
        assert(ms.take(k + 1).drop_last() =~= ms.take(k));
        assert(ms.take(k + 1).last() == ms[k]);
        lemma_merge_into_len(spec_merge_models(ms.take(k)), ms[k]);
        lemma_merge_models_prefix_len(ms, k + 1);
    }
}

/// Merging one uniquely-pathed archive into nothing yields exactly
/// its own entries.
proof fn lemma_merge_single(m0: Seq<EntryModel>)
    requires
        spec_models_unique(m0),
    ensures
        spec_merge_into(Seq::<EntryModel>::empty(), m0) == m0,
{
    assert(forall|i: int|
        0 <= i < m0.len() ==> !spec_model_has(Seq::<EntryModel>::empty(), (#[trigger] m0[i]).0));
    lemma_merge_into_disjoint(Seq::<EntryModel>::empty(), m0);
    assert(Seq::<EntryModel>::empty() + m0 =~= m0);
}

/// Replacing or appending one entry maps to one model-level merge
/// step.
proof fn lemma_models_add(
    old_entries: Seq<PackedFile>,
    new_entries: Seq<PackedFile>,
    src: Seq<u8>,
    e: PackedFile,
)
    requires
        forall|i: int, j: int|
            0 <= i < j < old_entries.len() ==> (#[trigger] old_entries[i]).path@ != (
            #[trigger] old_entries[j]).path@,
        match spec_find(old_entries, e.path@) {
            Some(i) => new_entries == old_entries.update(i, e),
            None => new_entries == old_entries.push(e),
        },
    ensures
        spec_models(new_entries, src) == spec_add_model(
            spec_models(old_entries, src),
            spec_entry_model(e, src),
        ),
{
    let ms = spec_models(old_entries, src);
    let me = spec_entry_model(e, src);
    assert(forall|i: int|
        0 <= i < old_entries.len() ==> (#[trigger] ms[i]).0 == old_entries[i].path@);
    if spec_has_path(old_entries, e.path@) {
        assert(spec_find(old_entries, e.path@) is Some);
        let i = spec_find(old_entries, e.path@).unwrap();
        assert(0 <= i < old_entries.len() && old_entries[i].path@ == e.path@);
        assert(me.0 == e.path@);
        assert(ms[i].0 == me.0);
        assert(spec_model_has(ms, me.0));
        let k = spec_model_index(ms, me.0);
        assert(0 <= k < ms.len() && ms[k].0 == me.0);
        assert(old_entries[k].path@ == e.path@);
        assert(k == i);
        assert(spec_models(new_entries, src) =~~= ms.update(i, me));
    } else {
        assert(!spec_model_has(ms, me.0)) by {
            if spec_model_has(ms, me.0) {
                let k = spec_model_index(ms, me.0);
                assert(0 <= k < ms.len() && ms[k].0 == me.0);
                assert(old_entries[k].path@ == e.path@);
            }
        }
        assert(spec_models(new_entries, src) =~~= ms.push(me));
    }
}

impl PackFile {
    /// Merges every entry of `other` into this archive, replacing
    /// entries at paths both hold.  Fails only when the merged view
    /// would hold more entries than an index can count.
    #[verifier::rlimit(100)]
    #[verifier::loop_isolation(false)]
    fn merge_archive_into(&mut self, other: &PackFile) -> (r: Result<(), Error>)
        requires
            old(self).wf(),
            other.wf(),
            forall|i: int|
                0 <= i < other.packed_files@.len() ==> (#[trigger] other.packed_files@[i]).data
                    matches PackedFileData::OnMemory(_d, _c, _e),
        ensures
            final(self).pfh_version == old(self).pfh_version,
            final(self).bitmask == old(self).bitmask,
            final(self).timestamp == old(self).timestamp,
            final(self).pack_files == old(self).pack_files,
            final(self).source@ == old(self).source@,
            forall|i: int|
                0 <= i < final(self).packed_files@.len() && (forall|j: int|
                    0 <= j < old(self).packed_files@.len() ==> (#[trigger] old(
                        self,
                    ).packed_files@[j]).data matches PackedFileData::OnMemory(_d, _c, _e)) ==> (
                #[trigger] final(self).packed_files@[i]).data matches PackedFileData::OnMemory(
                    _d2,
                    _c2,
                    _e2,
                ),
            match r {
                Ok(_) => {
                    &&& final(self).wf()
                    &&& spec_models(final(self).packed_files@, final(self).source@)
                        == spec_merge_into(
                        spec_models(old(self).packed_files@, old(self).source@),
                        spec_models(other.packed_files@, other.source@),
                    )
                },
                Err(e) => e == Error::CorruptData,
            },
            spec_merge_into(
                spec_models(old(self).packed_files@, old(self).source@),
                spec_models(other.packed_files@, other.source@),
            ).len() < u32::MAX ==> r is Ok,
    {
        let ghost base = spec_models(self.packed_files@, self.source@);
        let ghost mk = spec_models(other.packed_files@, other.source@);
        let nk = other.packed_files.len();
        let mut j: usize = 0;
        proof {
            assert(mk.take(0) =~= Seq::<EntryModel>::empty());
        }
        while j < nk
            invariant
                j <= nk,
                self.wf(),
                self.pfh_version == old(self).pfh_version,
                self.bitmask == old(self).bitmask,
                self.timestamp == old(self).timestamp,
                self.pack_files == old(self).pack_files,
                self.source@ == old(self).source@,
                forall|i: int|
                    0 <= i < self.packed_files@.len() && (forall|q: int|
                        0 <= q < old(self).packed_files@.len() ==> (#[trigger] old(
                            self,
                        ).packed_files@[q]).data matches PackedFileData::OnMemory(_d, _c, _e))
                    ==> (#[trigger] self.packed_files@[i]).data matches PackedFileData::OnMemory(
                        _d2,
                        _c2,
                        _e2,
                    ),
                spec_models(self.packed_files@, self.source@) == spec_merge_into(
                    base,
                    mk.take(j as int),
                ),
            decreases nk - j,
        {
            if self.packed_files.len() >= u32::MAX as usize {
                proof {
                    if spec_merge_into(base, mk).len() < u32::MAX {
                        assert(mk.take(j as int) + mk.skip(j as int) =~= mk);
                        lemma_merge_into_append(base, mk.take(j as int), mk.skip(j as int));
                        lemma_merge_into_len(
                            spec_merge_into(base, mk.take(j as int)),
                            mk.skip(j as int),
                        );
                    }
                }
                return Err(Error::CorruptData);
            }
            let e = clone_entry(&other.packed_files[j]);
            let ghost me = spec_entry_model(e, self.source@);
            let ghost old_entries = self.packed_files@;
            proof {
                assert(me == spec_entry_model(other.packed_files@[j as int], other.source@));
                assert(me == mk[j as int]);
            }
            match self.add_packed_file(e, true) {
                Ok(_) => {},
                Err(_e) => {
                    proof {
                        assert(false);
                    }
                    return Err(Error::CorruptData);
                },
            };
            proof {
                lemma_models_add(old_entries, self.packed_files@, self.source@, e);
                assert(mk.take(j + 1).drop_last() =~= mk.take(j as int));
                assert(mk.take(j + 1).last() == mk[j as int]);
            }
            j = j + 1;
        }
        proof {
            assert(mk.take(nk as int) =~= mk);
        }
        Ok(())
    }

    /// Opens several archive buffers as one logical view: the indices
    /// merge in the order given, entries of later archives overriding
    /// earlier ones at the same path.  Version, bitmask, timestamp and
    /// dependency names come from the first archive.  With one buffer,
    /// `lazy` is honored; a merged view is always built eagerly.
    /// Fails when any buffer is malformed, or when the merged view
    /// would hold more entries than an index can count.
    #[verifier::rlimit(100)]
    #[verifier::loop_isolation(false)]
    pub fn open_packfiles(sources: &Vec<Vec<u8>>, lazy: bool) -> (r: Result<PackFile, Error>)
        requires
            sources@.len() >= 1,
        ensures
            match r {
                Ok(pf) => {
                    &&& pf.wf()
                    &&& (forall|k: int|
                        0 <= k < sources@.len() ==> spec_parse((#[trigger] sources@[k])@) is Some)
                    &&& pf.pfh_version == spec_parse(sources@[0]@).unwrap().0
                    &&& pf.bitmask == spec_parse(sources@[0]@).unwrap().1
                    &&& pf.timestamp == spec_parse(sources@[0]@).unwrap().2
                    &&& pf.pack_files.deep_view() == spec_parse(sources@[0]@).unwrap().3
                    &&& spec_models(pf.packed_files@, pf.source@) == spec_merge_models(
                        Seq::new(
                            sources@.len() as nat,
                            |k: int| spec_parse(sources@[k]@).unwrap().4,
                        ),
                    )
                },
                Err(e) => e == Error::CorruptData,
            },
            (exists|k: int|
                0 <= k < sources@.len() && spec_parse((#[trigger] sources@[k])@) is None) ==> r
                is Err,
            ((forall|k: int|
                0 <= k < sources@.len() ==> spec_parse((#[trigger] sources@[k])@) is Some)
                && spec_merge_models(
                Seq::new(sources@.len() as nat, |k: int| spec_parse(sources@[k]@).unwrap().4),
            ).len() < u32::MAX) ==> r is Ok,
    {
        let ghost models = Seq::new(
            sources@.len() as nat,
            |k: int| spec_parse(sources@[k]@).unwrap().4,
        );
        let eager = sources.len() > 1;
        let first = clone_bytes(&sources[0]);
        let mut merged = match PackFile::open(first, lazy && !eager) {
            Ok(pf) => pf,
            Err(_e) => {
                return Err(Error::CorruptData);
            },
        };
        proof {
            let m0 = models[0];
            assert(spec_models(merged.packed_files@, merged.source@) =~~= merged.spec_model().4);
            assert(spec_models_unique(m0)) by {
                assert(forall|i: int|
                    0 <= i < m0.len() ==> (#[trigger] m0[i]).0 == merged.packed_files@[i].path@);
            }
            lemma_merge_single(m0);
            assert(models.take(1).drop_last() =~= Seq::<Seq<EntryModel>>::empty());
            assert(models.take(1).last() == m0);
            assert(spec_merge_models(models.take(1)) == spec_merge_into(
                spec_merge_models(Seq::<Seq<EntryModel>>::empty()),
                m0,
            ));
        }
        if sources.len() == 1 {
            proof {
                assert(models.take(1) =~= models);
            }
            return Ok(merged);
        }
        let ghost first_model = spec_parse(sources@[0]@).unwrap();
        let mut k: usize = 1;
        while k < sources.len()
            invariant
                1 <= k <= sources@.len(),
                merged.wf(),
                forall|kk: int| 0 <= kk < k ==> spec_parse((#[trigger] sources@[kk])@) is Some,
                merged.pfh_version == first_model.0,
                merged.bitmask == first_model.1,
                merged.timestamp == first_model.2,
                merged.pack_files.deep_view() == first_model.3,
                forall|i: int|
                    0 <= i < merged.packed_files@.len() ==> (#[trigger] merged.packed_files@[i]).data
                        matches PackedFileData::OnMemory(_d, _c, _e),
                spec_models(merged.packed_files@, merged.source@) == spec_merge_models(
                    models.take(k as int),
                ),
            decreases sources@.len() - k,
        {
            let src_k = clone_bytes(&sources[k]);
            let pk = match PackFile::open(src_k, false) {
                Ok(pf) => pf,
                Err(_e) => {
                    return Err(Error::CorruptData);
                },
            };
            let ghost mk = models[k as int];
            proof {
                assert(mk =~~= spec_models(pk.packed_files@, pk.source@));
            }
            let ghost before = spec_models(merged.packed_files@, merged.source@);
            match merged.merge_archive_into(&pk) {
                Ok(_) => {},
                Err(_e) => {
                    proof {
                        if spec_merge_models(models).len() < u32::MAX {
                            assert(models.take(k + 1).drop_last() =~= models.take(k as int));
                            assert(models.take(k + 1).last() == mk);
                            lemma_merge_models_prefix_len(models, k + 1);
                        }
                    }
                    return Err(Error::CorruptData);
                },
            };
            proof {
                assert(models.take(k + 1).drop_last() =~= models.take(k as int));
                assert(models.take(k + 1).last() == mk);
            }
            k = k + 1;
        }
        proof {
            assert(models.take(sources@.len() as int) =~= models);
        }
        Ok(merged)
    }
}

/// Whether some entry of the list carries the path.
pub open spec fn spec_has_path(entries: Seq<PackedFile>, p: Seq<u8>) -> bool {
    exists|i: int| 0 <= i < entries.len() && (#[trigger] entries[i]).path@ == p
}

/// The index of the entry carrying the path, when one does.
pub open spec fn spec_find(entries: Seq<PackedFile>, p: Seq<u8>) -> Option<int> {
    if spec_has_path(entries, p) {
        Some(choose|i: int| 0 <= i < entries.len() && (#[trigger] entries[i]).path@ == p)
    } else {
        None
    }
}

impl PackFile {
    /// The index of the entry at `path`, if any.
    fn find_index(&self, path: &Vec<u8>) -> (r: Option<usize>)
        ensures
            match r {
                Some(i) => i < self.packed_files@.len() && self.packed_files@[i as int].path@
                    == path@ && spec_has_path(self.packed_files@, path@),
                None => !spec_has_path(self.packed_files@, path@),
            },
    {
        let n = self.packed_files.len();
        let mut i: usize = 0;
        while i < n
            invariant
                i <= n,
                n == self.packed_files@.len(),
                forall|j: int| 0 <= j < i ==> (#[trigger] self.packed_files@[j]).path@ != path@,
            decreases n - i,
        {
            if bytes_eq(&self.packed_files[i].path, path) {
                return Some(i);
            }
            i = i + 1;
        }
        None
    }

    /// Whether an entry stands at exactly this path.
    pub fn packedfile_exists(&self, path: &Vec<u8>) -> (r: bool)
        ensures
            r == spec_has_path(self.packed_files@, path@),
    {
        self.find_index(path).is_some()
    }

    /// Whether some entry lies below this path taken as a folder.
    pub fn folder_exists(&self, path: &Vec<u8>) -> (r: bool)
        ensures
            r == exists|i: int|
                0 <= i < self.packed_files@.len() && spec_in_folder(
                    (#[trigger] self.packed_files@[i]).path@,
                    path@,
                ),
    {
        let n = self.packed_files.len();
        let mut i: usize = 0;
        while i < n
            invariant
                i <= n,
                n == self.packed_files@.len(),
                forall|j: int|
                    0 <= j < i ==> !spec_in_folder(
                        (#[trigger] self.packed_files@[j]).path@,
                        path@,
                    ),
            decreases n - i,
        {
            if path_in_folder(&self.packed_files[i].path, path) {
                return true;
            }
            i = i + 1;
        }
        false
    }

    /// The entry at exactly this path, if any.
    pub fn get_packed_file_by_path(&self, path: &Vec<u8>) -> (r: Option<&PackedFile>)
        ensures
            match r {
                Some(e) => e.path@ == path@ && exists|i: int|
                    0 <= i < self.packed_files@.len() && *e == (#[trigger] self.packed_files@[i]),
                None => !spec_has_path(self.packed_files@, path@),
            },
    {
        match self.find_index(path) {
            Some(i) => Some(&self.packed_files[i]),
            None => None,
        }
    }

    /// Reads and decodes the entry at this path without caching.
    pub fn get_data_by_path(&self, path: &Vec<u8>) -> (r: Result<Vec<u8>, Error>)
        requires
            self.wf(),
        ensures
            match r {
                Ok(d) => exists|i: int|
                    0 <= i < self.packed_files@.len() && (#[trigger] self.packed_files@[i]).path@
                        == path@ && self.spec_entry_decoded(i) == Some(d@),
                Err(e) => {
                    &&& (e == Error::EntryNotFound <==> !spec_has_path(
                        self.packed_files@,
                        path@,
                    ))
                    &&& (e == Error::CorruptData ==> exists|i: int|
                        0 <= i < self.packed_files@.len() && (#[trigger] self.packed_files@[i]).path@
                            == path@ && self.spec_entry_decoded(i) is None)
                    &&& (e == Error::EntryNotFound || e == Error::CorruptData)
                },
            },
    {
        match self.find_index(path) {
            Some(i) => {
                match self.packed_files[i].get_data(&self.source) {
                    Ok(d) => Ok(d),
                    Err(_e) => Err(Error::CorruptData),
                }
            },
            None => Err(Error::EntryNotFound),
        }
    }

    /// Reads and decodes the entry at position `i` without caching.
    pub fn get_data_by_index(&self, i: usize) -> (r: Result<Vec<u8>, Error>)
        requires
            self.wf(),
            i < self.packed_files@.len(),
        ensures
            match r {
                Ok(d) => self.spec_entry_decoded(i as int) == Some(d@),
                Err(e) => e == Error::CorruptData && self.spec_entry_decoded(i as int) is None,
            },
    {
        match self.packed_files[i].get_data(&self.source) {
            Ok(d) => Ok(d),
            Err(_e) => Err(Error::CorruptData),
        }
    }

    /// Reads, decodes and caches the body of the entry at position
    /// `i`: afterwards the body sits in memory with both transform
    /// flags cleared, and the entry still decodes to the same bytes.
    pub fn load_entry_by_index(&mut self, i: usize) -> (r: Result<Vec<u8>, Error>)
        requires
            old(self).wf(),
            i < old(self).packed_files@.len(),
        ensures
            final(self).wf(),
            final(self).pfh_version == old(self).pfh_version,
            final(self).bitmask == old(self).bitmask,
            final(self).source@ == old(self).source@,
            final(self).packed_files@.len() == old(self).packed_files@.len(),
            forall|j: int|
                0 <= j < old(self).packed_files@.len() && j != i ==> final(self).packed_files@[j]
                    == (#[trigger] old(self).packed_files@[j]),
            match r {
                Ok(d) => {
                    &&& old(self).spec_entry_decoded(i as int) == Some(d@)
                    &&& final(self).spec_entry_decoded(i as int) == Some(d@)
                    &&& final(self).packed_files@[i as int].path@ == old(
                        self,
                    ).packed_files@[i as int].path@
                },
                Err(e) => {
                    &&& e == Error::CorruptData
                    &&& old(self).spec_entry_decoded(i as int) is None
                    &&& final(self).packed_files@ == old(self).packed_files@
                },
            },
    {
        let ghost old_entries = self.packed_files@;
        let mut e = self.packed_files.remove(i);
        let r = e.get_data_and_keep_it(&self.source);
        self.packed_files.insert(i, e);
        proof {
            assert(final(self).packed_files@ =~= old_entries.update(
                i as int,
                final(self).packed_files@[i as int],
            ));
            if r is Err {
                assert(final(self).packed_files@ =~= old_entries);
            }
        }
        match r {
            Ok(d) => Ok(d),
            Err(_e) => Err(Error::CorruptData),
        }
    }

    /// Adds an entry whose body is held in memory.  With `overwrite`
    /// unset, an entry already at that path is left alone and the call
    /// fails; with it set, that entry is replaced in place.
    pub fn add_packed_file(&mut self, packed_file: PackedFile, overwrite: bool) -> (r: Result<
        (),
        Error,
    >)
        requires
            old(self).wf(),
            old(self).packed_files@.len() < u32::MAX,
            packed_file.wf(),
            spec_wf_path(packed_file.path@),
            packed_file.data matches PackedFileData::OnMemory(_d, _c, _e),
        ensures
            final(self).pfh_version == old(self).pfh_version,
            final(self).bitmask == old(self).bitmask,
            final(self).timestamp == old(self).timestamp,
            final(self).notes == old(self).notes,
            final(self).source@ == old(self).source@,
            final(self).pack_files == old(self).pack_files,
            match r {
                Ok(_) => {
                    &&& final(self).wf()
                    &&& (match spec_find(old(self).packed_files@, packed_file.path@) {
                        Some(i) => overwrite && final(self).packed_files@ == old(
                            self,
                        ).packed_files@.update(i, packed_file),
                        None => final(self).packed_files@ == old(self).packed_files@.push(
                            packed_file,
                        ),
                    })
                },
                Err(e) => {
                    &&& e == Error::PathConflict
                    &&& !overwrite
                    &&& spec_has_path(old(self).packed_files@, packed_file.path@)
                    &&& final(self).packed_files@ == old(self).packed_files@
                },
            },
    {
        let ghost old_entries = self.packed_files@;
        match self.find_index(&packed_file.path) {
            Some(i) => {
                if !overwrite {
                    return Err(Error::PathConflict);
                }
                let ghost w = choose|j: int|
                    0 <= j < old_entries.len() && (#[trigger] old_entries[j]).path@
                        == packed_file.path@;
                let _old = self.packed_files.remove(i);
                self.packed_files.insert(i, packed_file);
                proof {
                    assert(old_entries[w].path@ == old_entries[i as int].path@);
                    assert(w == i as int);
                    assert(final(self).packed_files@ =~= old_entries.update(
                        i as int,
                        final(self).packed_files@[i as int],
                    ));
                }
                Ok(())
            },
            None => {
                self.packed_files.push(packed_file);
                Ok(())
            },
        }
    }

    /// Replaces the body of the entry at this path with raw bytes
    /// carrying no transforms; the next save re-applies the archive's
    /// own policy.  Fails when no entry stands there.
    #[verifier::rlimit(100)]
    #[verifier::spinoff_prover]
    pub fn set_data_by_path(&mut self, path: &Vec<u8>, data: Vec<u8>) -> (r: Result<(), Error>)
        requires
            old(self).wf(),
            data@.len() <= u32::MAX,
        ensures
            final(self).wf(),
            final(self).pfh_version == old(self).pfh_version,
            final(self).bitmask == old(self).bitmask,
            final(self).source@ == old(self).source@,
            match r {
                Ok(_) => {
                    &&& final(self).packed_files@.len() == old(self).packed_files@.len()
                    &&& exists|i: int|
                        #![trigger old(self).packed_files@[i]]
                        {
                            &&& 0 <= i < old(self).packed_files@.len()
                            &&& old(self).packed_files@[i].path@ == path@
                            &&& final(self).packed_files@[i].path@ == path@
                            &&& final(self).packed_files@[i].spec_decoded(final(self).source@)
                                == Some(data@)
                            &&& (forall|j: int|
                                0 <= j < old(self).packed_files@.len() && j != i
                                    ==> final(self).packed_files@[j] == (#[trigger] old(
                                    self,
                                ).packed_files@[j]))
                        }
                },
                Err(e) => {
                    &&& e == Error::EntryNotFound
                    &&& !spec_has_path(old(self).packed_files@, path@)
                    &&& final(self).packed_files@ == old(self).packed_files@
                },
            },
    {
        let ghost old_entries = self.packed_files@;
        let i = match self.find_index(path) {
            Some(i) => i,
            None => {
                return Err(Error::EntryNotFound);
            },
        };
        let mut e = self.packed_files.remove(i);
        e.set_data(data);
        self.packed_files.insert(i, e);
        proof {
            assert(final(self).packed_files@ =~= old_entries.update(
                i as int,
                final(self).packed_files@[i as int],
            ));
            assert(forall|j: int|
                0 <= j < final(self).packed_files@.len() && j != i
                    ==> #[trigger] final(self).packed_files@[j] == old_entries[j]);
            assert(final(self).packed_files@[i as int].path@ == old_entries[i as int].path@);
            assert(final(self).packed_files@[i as int].spec_decoded(final(self).source@)
                == Some(data@));
        }
        Ok(())
    }

    /// Removes and returns the entry at this path; fails when none
    /// stands there.
    pub fn remove_packed_file_by_path(&mut self, path: &Vec<u8>) -> (r: Result<PackedFile, Error>)
        requires
            old(self).wf(),
        ensures
            final(self).wf(),
            final(self).pfh_version == old(self).pfh_version,
            final(self).bitmask == old(self).bitmask,
            final(self).source@ == old(self).source@,
            match r {
                Ok(e) => {
                    &&& e.path@ == path@
                    &&& exists|i: int|
                        0 <= i < old(self).packed_files@.len() && e == (#[trigger] old(
                            self,
                        ).packed_files@[i]) && final(self).packed_files@ == old(
                            self,
                        ).packed_files@.remove(i)
                },
                Err(err) => {
                    &&& err == Error::EntryNotFound
                    &&& !spec_has_path(old(self).packed_files@, path@)
                    &&& final(self).packed_files@ == old(self).packed_files@
                },
            },
    {
        match self.find_index(path) {
            Some(i) => {
                let e = self.packed_files.remove(i);
                Ok(e)
            },
            None => Err(Error::EntryNotFound),
        }
    }

    /// Moves the entry at `old_path` to `new_path`; fails when no
    /// entry stands at `old_path` or one already stands at `new_path`.
    pub fn rename_packedfile(&mut self, old_path: &Vec<u8>, new_path: &Vec<u8>) -> (r: Result<
        (),
        Error,
    >)
        requires
            old(self).wf(),
            spec_wf_path(new_path@),
        ensures
            final(self).wf(),
            final(self).pfh_version == old(self).pfh_version,
            final(self).bitmask == old(self).bitmask,
            final(self).source@ == old(self).source@,
            match r {
                Ok(_) => {
                    &&& spec_has_path(old(self).packed_files@, old_path@)
                    &&& !spec_has_path(old(self).packed_files@, new_path@)
                    &&& exists|i: int|
                        0 <= i < old(self).packed_files@.len() && (#[trigger] old(
                            self,
                        ).packed_files@[i]).path@ == old_path@ && final(self).packed_files@
                            =~= old(self).packed_files@.update(
                            i,
                            PackedFile {
                                path: final(self).packed_files@[i].path,
                                ..old(self).packed_files@[i]
                            },
                        ) && final(self).packed_files@[i].path@ == new_path@
                },
                Err(e) => {
                    &&& final(self).packed_files@ == old(self).packed_files@
                    &&& (e == Error::EntryNotFound <==> !spec_has_path(
                        old(self).packed_files@,
                        old_path@,
                    ))
                    &&& (e == Error::PathConflict <==> (spec_has_path(
                        old(self).packed_files@,
                        old_path@,
                    ) && spec_has_path(old(self).packed_files@, new_path@)))
                    &&& (e == Error::EntryNotFound || e == Error::PathConflict)
                },
            },
    {
        let ghost old_entries = self.packed_files@;
        let i = match self.find_index(old_path) {
            Some(i) => i,
            None => {
                return Err(Error::EntryNotFound);
            },
        };
        if self.packedfile_exists(new_path) {
            return Err(Error::PathConflict);
        }
        let mut e = self.packed_files.remove(i);
        e.path = clone_bytes(new_path);
        self.packed_files.insert(i, e);
        proof {
            assert(final(self).packed_files@ =~= old_entries.update(
                i as int,
                final(self).packed_files@[i as int],
            ));
        }
        Ok(())
    }

    /// Flips the archive-level compression default.  Existing entries
    /// are not touched — their bytes change only at the next save.
    /// Setting the flag is a no-op under a revision that cannot carry
    /// it.
    pub fn toggle_compression(&mut self, state: bool)
        requires
            old(self).wf(),
        ensures
            final(self).wf(),
            final(self).packed_files == old(self).packed_files,
            final(self).source@ == old(self).source@,
            final(self).pfh_version == old(self).pfh_version,
            final(self).bitmask == (if state {
                if old(self).pfh_version.spec_legal_bits() & BIT_DATA_COMPRESSED != 0 {
                    old(self).bitmask | BIT_DATA_COMPRESSED
                } else {
                    old(self).bitmask
                }
            } else {
                old(self).bitmask & !BIT_DATA_COMPRESSED
            }),
    {
        let ghost bm = self.bitmask;
        let ghost lb = self.pfh_version.spec_legal_bits();
        if state {
            if self.pfh_version.legal_bits() & BIT_DATA_COMPRESSED != 0 {
                self.bitmask = self.bitmask | BIT_DATA_COMPRESSED;
                proof {
                    assert(bm & !lb == 0 && lb & 0x2u32 != 0 ==> (bm | 0x2u32) & !lb == 0)
                        by (bit_vector);
                }
            }
        } else {
            self.bitmask = self.bitmask & !BIT_DATA_COMPRESSED;
            proof {
                assert(bm & !lb == 0 ==> (bm & !0x2u32) & !lb == 0) by (bit_vector);
            }
        }
    }

    /// Changes the declared format version.  A pure metadata update:
    /// entries are not re-encoded.  Bitmask bits the new revision
    /// cannot carry are dropped.
    pub fn set_pfh_version(&mut self, version: PFHVersion)
        requires
            old(self).wf(),
        ensures
            final(self).wf(),
            final(self).packed_files == old(self).packed_files,
            final(self).source@ == old(self).source@,
            final(self).pfh_version == version,
            final(self).bitmask == old(self).bitmask & version.spec_legal_bits(),
    {
        let ghost bm = self.bitmask;
        let ghost lb = version.spec_legal_bits();
        self.bitmask = self.bitmask & version.legal_bits();
        self.pfh_version = version;
        proof {
            assert((bm & lb) & !lb == 0) by (bit_vector);
        }
    }

    /// The declared dependency-archive names.
    pub fn get_packfiles_list(&self) -> (r: &Vec<Vec<u8>>)
        ensures
            r == &self.pack_files,
    {
        &self.pack_files
    }

    /// Replaces the declared dependency-archive names.
    pub fn set_packfiles_list(&mut self, names: Vec<Vec<u8>>)
        requires
            old(self).wf(),
            names@.len() <= u32::MAX,
            forall|i: int| 0 <= i < names@.len() ==> (#[trigger] names@[i])@.len() <= u32::MAX,
        ensures
            final(self).wf(),
            final(self).pack_files == names,
            final(self).packed_files == old(self).packed_files,
            final(self).bitmask == old(self).bitmask,
            final(self).source@ == old(self).source@,
    {
        self.pack_files = names;
    }

    /// The archive's free-text note, if any.
    pub fn get_notes(&self) -> (r: &Option<Vec<u8>>)
        ensures
            r == &self.notes,
    {
        &self.notes
    }

    /// Replaces the archive's free-text note.
    pub fn set_notes(&mut self, notes: Option<Vec<u8>>)
        requires
            old(self).wf(),
        ensures
            final(self).wf(),
            final(self).notes == notes,
            final(self).packed_files == old(self).packed_files,
            final(self).bitmask == old(self).bitmask,
            final(self).source@ == old(self).source@,
    {
        self.notes = notes;
    }
}

/// Whether `p` lies strictly below `folder`: it continues `folder`
/// with a slash and at least one more byte.
pub open spec fn spec_in_folder(p: Seq<u8>, folder: Seq<u8>) -> bool {
    &&& p.len() > folder.len() + 1
    &&& p.take(folder.len() as int) == folder
    &&& p[folder.len() as int] == 47u8
}

/// Whether `p` lies strictly below `folder`.
pub(crate) fn path_in_folder(p: &Vec<u8>, folder: &Vec<u8>) -> (r: bool)
    ensures
        r == spec_in_folder(p@, folder@),
{
    if p.len() <= folder.len() {
        return false;
    }
    if p.len() - folder.len() <= 1 {
        return false;
    }
    if p[folder.len()] != 47u8 {
        return false;
    }
    let mut i: usize = 0;
    while i < folder.len()
        invariant
            i <= folder@.len(),
            p@.len() > folder@.len() + 1,
            forall|j: int| 0 <= j < i ==> p@[j] == folder@[j],
        decreases folder@.len() - i,
    {
        if p[i] != folder[i] {
            assert(p@.take(folder@.len() as int)[i as int] != folder@[i as int]);
            return false;
        }
        i = i + 1;
    }
    assert(p@.take(folder@.len() as int) =~= folder@);
    true
}

/// A prefix's total size never exceeds the whole list's.
proof fn lemma_total_wire_mono(metas: Seq<IdxMeta>, i: int)
    requires
        0 <= i <= metas.len(),
    ensures
        spec_total_wire(metas.take(i)) <= spec_total_wire(metas),
    decreases metas.len() - i,
{
    if i == metas.len() {
        assert(metas.take(i) =~= metas);
    } else {
        lemma_total_wire_prefix(metas, i);
        lemma_total_wire_mono(metas, i + 1);
    }
}

/// Whether all record paths are pairwise distinct.
fn paths_unique(es: &Vec<IdxEntry>) -> (r: bool)
    ensures
        r == spec_unique_paths(metas_of(es@)),
{
    let n = es.len();
    let mut a: usize = 0;
    while a < n
        invariant
            a <= n,
            n == es@.len(),
            forall|i: int, j: int|
                0 <= i < j < n && i < a ==> (#[trigger] es@[i]).path@ != (#[trigger] es@[j]).path@,
        decreases n - a,
    {
        let mut b: usize = a + 1;
        while b < n
            invariant
                a < b <= n,
                n == es@.len(),
                forall|j: int| a < j < b ==> (#[trigger] es@[j]).path@ != es@[a as int].path@,
            decreases n - b,
        {
            if bytes_eq(&es[a].path, &es[b].path) {
                assert(metas_of(es@)[a as int].0 == metas_of(es@)[b as int].0);
                return false;
            }
            b = b + 1;
        }
        a = a + 1;
    }
    true
}

} // verus!
