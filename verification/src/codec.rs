//! Byte-level codec primitives: a reversible obfuscation transform and a
//! block-oriented lossless compressor.
//!
//! Both are pure: they allocate fresh buffers and never mutate their
//! input.  The obfuscation is a version-keyed involution — applying it
//! twice with the same format version recovers the input exactly.  The
//! compressor writes a four-byte frame header holding the decompressed
//! length, followed by run-length pairs; decompression rejects any
//! malformed frame.

use vstd::prelude::*;

use crate::error::Error;
use crate::version::PFHVersion;
use crate::wire::{u32_from_le, u32_le_bytes, lemma_u32_le_roundtrip, push_u32_le, read_u32_le};

verus! {

/// The eight-byte key schedule word of a format revision.
pub open spec fn spec_key_word(v: PFHVersion) -> u64 {
    match v {
        PFHVersion::PFH0 => 0x1A2B_3C4D_5E6F_7081,
        PFHVersion::PFH2 => 0x93A5_B7C9_DBED_FF02,
        PFHVersion::PFH3 => 0x2468_ACE0_1357_9BD3,
        PFHVersion::PFH4 => 0xFEDC_BA98_7654_3214,
        PFHVersion::PFH5 => 0x0F1E_2D3C_4B5A_6975,
    }
}

/// The eight-byte key schedule word of a format revision.
pub fn key_word(v: PFHVersion) -> (r: u64)
    ensures
        r == spec_key_word(v),
{
    match v {
        PFHVersion::PFH0 => 0x1A2B_3C4D_5E6F_7081,
        PFHVersion::PFH2 => 0x93A5_B7C9_DBED_FF02,
        PFHVersion::PFH3 => 0x2468_ACE0_1357_9BD3,
        PFHVersion::PFH4 => 0xFEDC_BA98_7654_3214,
        PFHVersion::PFH5 => 0x0F1E_2D3C_4B5A_6975,
    }
}

/// The key stream byte applied at position `i` under version `v`: a byte
/// of the version's key word, whitened with the low bits of the position.
pub open spec fn spec_obf_key(v: PFHVersion, i: int) -> u8 {
    (((spec_key_word(v) >> ((i % 8) * 8)) & 0xff) as u8) ^ ((i % 256) as u8)
}

/// The key stream byte applied at position `i` under version `v`.
pub fn obf_key(v: PFHVersion, i: usize) -> (r: u8)
    ensures
        r == spec_obf_key(v, i as int),
{
    let w = key_word(v);
    let shift: u64 = ((i % 8) as u64) * 8;
    let ghost ii = i as int;
    assert(shift == (ii % 8) * 8);
    let k = ((w >> shift) & 0xff) as u8;
    let p = (i % 256) as u8;
    assert(p == (ii % 256) as u8);
    k ^ p
}

/// The obfuscation transform: every byte is combined with the key stream
/// of version `v` at its own position.
pub open spec fn spec_obfuscate(s: Seq<u8>, v: PFHVersion) -> Seq<u8> {
    Seq::new(s.len(), |i: int| s[i] ^ spec_obf_key(v, i))
}

/// Applying the transform twice with the same version recovers the
/// input exactly: the transform is an involution.
pub proof fn lemma_obfuscation_involution(s: Seq<u8>, v: PFHVersion)
    ensures
        spec_obfuscate(spec_obfuscate(s, v), v) == s,
{
    assert forall|i: int| 0 <= i < s.len() implies spec_obfuscate(spec_obfuscate(s, v), v)[i]
        == s[i] by {
        let k = spec_obf_key(v, i);
        let x = s[i];
        assert((x ^ k) ^ k == x) by (bit_vector);
    }
    assert(spec_obfuscate(spec_obfuscate(s, v), v) =~= s);
}

/// Obfuscates `data` under the key schedule of version `v`.
pub fn obfuscate(data: &Vec<u8>, v: PFHVersion) -> (r: Vec<u8>)
    ensures
        r@ == spec_obfuscate(data@, v),
{
    let mut out: Vec<u8> = Vec::new();
    let mut i: usize = 0;
    while i < data.len()
        invariant
            i <= data@.len(),
            out@ == spec_obfuscate(data@, v).take(i as int),
        decreases data@.len() - i,
    {
        out.push(data[i] ^ obf_key(v, i));
        assert(out@ =~= spec_obfuscate(data@, v).take(i + 1));
        i = i + 1;
    }
    assert(out@ =~= spec_obfuscate(data@, v));
    out
}

/// De-obfuscates `data` under the key schedule of version `v`.  Because
/// the transform is an involution this is the same byte operation as
/// [`obfuscate`]; it is named separately so call sites read as intended.
pub fn deobfuscate(data: &Vec<u8>, v: PFHVersion) -> (r: Vec<u8>)
    ensures
        r@ == spec_obfuscate(data@, v),
        spec_obfuscate(r@, v) == data@,
{
    proof {
        lemma_obfuscation_involution(data@, v);
    }
    obfuscate(data, v)
}

/// What a sequence of run-length pairs expands to: each pair is a count
/// (never zero) followed by the byte it repeats.  `None` when the pairs
/// are malformed.
pub open spec fn rle_expand(s: Seq<u8>) -> Option<Seq<u8>>
    decreases s.len(),
{
    if s.len() == 0 {
        Some(Seq::empty())
    } else if s.len() == 1 || s[0] == 0 {
        None
    } else {
        match rle_expand(s.skip(2)) {
            None => None,
            Some(t) => Some(Seq::new(s[0] as nat, |i: int| s[1]) + t),
        }
    }
}

/// What a whole compressed frame decompresses to: a four-byte header
/// holding the decompressed length, then run-length pairs that must
/// expand to exactly that length.  `None` when the frame is malformed.
pub open spec fn spec_decompress(s: Seq<u8>) -> Option<Seq<u8>> {
    if s.len() < 4 {
        None
    } else {
        match rle_expand(s.skip(4)) {
            None => None,
            Some(d) => if d.len() == u32_from_le(s.take(4)) as nat {
                Some(d)
            } else {
                None
            },
        }
    }
}

/// Appending one well-formed pair to well-formed pairs extends the
/// expansion by the run the pair describes.
proof fn lemma_rle_expand_append(p: Seq<u8>, c: u8, x: u8)
    requires
        rle_expand(p) is Some,
        c != 0,
    ensures
        rle_expand(p + seq![c, x]) == Some(
            rle_expand(p).unwrap() + Seq::new(c as nat, |i: int| x),
        ),
    decreases p.len(),
{
    let q = p + seq![c, x];
    if p.len() == 0 {
        assert(q =~= seq![c, x]);
        assert(q.skip(2) =~= Seq::<u8>::empty());
        assert(rle_expand(q) == Some(Seq::new(c as nat, |i: int| x) + Seq::<u8>::empty()));
        assert(Seq::new(c as nat, |i: int| x) + Seq::<u8>::empty() =~= rle_expand(p).unwrap()
            + Seq::new(c as nat, |i: int| x));
    } else {
        assert(p.len() >= 2 && p[0] != 0);
        lemma_rle_expand_append(p.skip(2), c, x);
        assert(q.skip(2) =~= p.skip(2) + seq![c, x]);
        assert(q.len() >= 2 && q[0] == p[0] && q[1] == p[1]);
        let t = rle_expand(p.skip(2)).unwrap();
        assert(rle_expand(q.skip(2)) == Some(t + Seq::new(c as nat, |i: int| x)));
        assert(Seq::new(p[0] as nat, |i: int| p[1]) + (t + Seq::new(c as nat, |i: int| x))
            =~= (Seq::new(p[0] as nat, |i: int| p[1]) + t) + Seq::new(c as nat, |i: int| x));
    }
}

/// Compresses `data` into a framed run-length encoding.  The frame it
/// returns always decompresses back to `data`: together with the
/// contract of [`decompress`] this states the round-trip law.
pub fn compress(data: &Vec<u8>) -> (r: Vec<u8>)
    requires
        data@.len() <= u32::MAX,
    ensures
        spec_decompress(r@) == Some(data@),
        r@.len() >= 4,
        r@.take(4) == u32_le_bytes(data@.len() as u32),
        rle_expand(r@.skip(4)) == Some(data@),
{
    let n = data.len();
    let mut out: Vec<u8> = Vec::new();
    push_u32_le(&mut out, n as u32);
    assert(out@.skip(4) =~= Seq::<u8>::empty());
    let mut i: usize = 0;
    while i < n
        invariant
            i <= n,
            n == data@.len(),
            n <= u32::MAX,
            out@.len() >= 4,
            out@.take(4) == u32_le_bytes(n as u32),
            rle_expand(out@.skip(4)) == Some(data@.take(i as int)),
        decreases n - i,
    {
        let x = data[i];
        let mut j = i + 1;
        while j < n && j - i < 255 && data[j] == x
            invariant
                i < j <= n,
                n == data@.len(),
                j - i <= 255,
                forall|k: int| i <= k < j ==> data@[k] == x,
            decreases n - j,
        {
            j = j + 1;
        }
        let c = (j - i) as u8;
        let ghost before = out@;
        out.push(c);
        out.push(x);
        proof {
            lemma_rle_expand_append(before.skip(4), c, x);
            assert(out@.skip(4) =~= before.skip(4) + seq![c, x]);
            assert(out@.take(4) =~= before.take(4));
            assert(Seq::new(c as nat, |k: int| x) =~= data@.subrange(i as int, j as int));
            assert(data@.take(i as int) + data@.subrange(i as int, j as int) =~= data@.take(
                j as int,
            ));
        }
        i = j;
    }
    proof {
        assert(data@.take(n as int) =~= data@);
        lemma_u32_le_roundtrip(n as u32);
    }
    out
}

/// Decompresses a framed run-length encoding.  Fails with
/// [`Error::CorruptData`] exactly when the frame is malformed: a missing
/// header, a zero run count, a dangling half pair, or an expansion whose
/// length disagrees with the header.
pub fn decompress(data: &Vec<u8>) -> (r: Result<Vec<u8>, Error>)
    ensures
        match r {
            Ok(d) => spec_decompress(data@) == Some(d@),
            Err(e) => e == Error::CorruptData && spec_decompress(data@) is None,
        },
{
    let n = data.len();
    let declared = match read_u32_le(data, 0) {
        Some(p) => p.0,
        None => {
            return Err(Error::CorruptData);
        },
    };
    assert(data@.subrange(0, 4) =~= data@.take(4));
    let mut out: Vec<u8> = Vec::new();
    let mut pos: usize = 4;
    while pos < n
        invariant
            4 <= pos <= n,
            n == data@.len(),
            declared == u32_from_le(data@.take(4)),
            rle_expand(data@.skip(4)) == match rle_expand(data@.skip(pos as int)) {
                None => None::<Seq<u8>>,
                Some(t) => Some(out@ + t),
            },
        decreases n - pos,
    {
        let c = data[pos];
        if c == 0 || pos + 1 >= n {
            proof {
                let rest = data@.skip(pos as int);
                assert(rest.len() >= 1 && rest[0] == c);
                assert(rle_expand(rest) is None);
            }
            return Err(Error::CorruptData);
        }
        let x = data[pos + 1];
        let ghost rest = data@.skip(pos as int);
        let ghost before = out@;
        let mut k: u8 = 0;
        while k < c
            invariant
                k <= c,
                out@ == before + Seq::new(k as nat, |q: int| x),
            decreases c - k,
        {
            out.push(x);
            assert(out@ =~= before + Seq::new((k + 1) as nat, |q: int| x));
            k = k + 1;
        }
        proof {
            assert(rest.len() >= 2 && rest[0] == c && rest[1] == x);
            assert(rest.skip(2) =~= data@.skip(pos + 2));
            assert(rle_expand(rest) == match rle_expand(data@.skip(pos + 2)) {
                None => None::<Seq<u8>>,
                Some(t) => Some(Seq::new(c as nat, |q: int| x) + t),
            });
            assert forall|t: Seq<u8>| true implies (before + (Seq::new(c as nat, |q: int| x) + t))
                =~= (out@ + t) by {}
        }
        pos = pos + 2;
    }
    proof {
        assert(data@.skip(n as int) =~= Seq::<u8>::empty());
        assert(rle_expand(data@.skip(n as int)) == Some(Seq::<u8>::empty()));
        assert(out@ + Seq::<u8>::empty() =~= out@);
        assert(rle_expand(data@.skip(4)) == Some(out@));
    }
    if out.len() == declared as usize {
        Ok(out)
    } else {
        Err(Error::CorruptData)
    }
}

} // verus!
