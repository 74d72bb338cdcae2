//! Byte encoding of stored values.

use crate::keys::{be32, be64, push_hash, push_u32, push_u64, BlobHash};
use crate::Error;
use vstd::prelude::*;

verus! {

/// A value that encodes to bytes.
pub trait Serialize: Sized {
    spec fn serialized(&self) -> Seq<u8>;

    fn serialize(self) -> (r: Vec<u8>)
        ensures
            r@ == self.serialized(),
    ;
}

/// A value that decodes from bytes, or fails on malformed input.
pub trait Deserialize: Sized {
    /// Whether the bytes are a well-formed encoding.
    spec fn decodable(bytes: Seq<u8>) -> bool;

    /// The value that well-formed bytes encode.
    spec fn decodes_to(bytes: Seq<u8>, v: Self) -> bool;

    fn deserialize(bytes: &[u8]) -> (r: Result<Self, Error>)
        ensures
            match r {
                Ok(v) => Self::decodable(bytes@) && Self::decodes_to(bytes@, v),
                Err(e) => !Self::decodable(bytes@) && e is InternalError,
            },
    ;
}

/// The integer whose big-endian bytes are `b[0..4]`.
pub open spec fn from_be32(b: Seq<u8>) -> u32 {
    ((b[0] as u32) << 24u32) | ((b[1] as u32) << 16u32) | ((b[2] as u32) << 8u32) | (b[3] as u32)
}

pub open spec fn from_be64(b: Seq<u8>) -> u64 {
    ((from_be32(b) as u64) << 32u64) | (from_be32(b.subrange(4, 8)) as u64)
}

impl Serialize for u32 {
    open spec fn serialized(&self) -> Seq<u8> {
        be32(*self)
    }

    fn serialize(self) -> (r: Vec<u8>) {
        let mut out: Vec<u8> = Vec::new();
        push_u32(&mut out, self);
        assert(out@ =~= be32(self));
        out
    }
}

impl Serialize for u64 {
    open spec fn serialized(&self) -> Seq<u8> {
        be64(*self)
    }

    fn serialize(self) -> (r: Vec<u8>) {
        let mut out: Vec<u8> = Vec::new();
        push_u64(&mut out, self);
        assert(out@ =~= be64(self));
        out
    }
}

impl Serialize for BlobHash {
    open spec fn serialized(&self) -> Seq<u8> {
        self@
    }

    fn serialize(self) -> (r: Vec<u8>) {
        let mut out: Vec<u8> = Vec::new();
        push_hash(&mut out, &self);
        assert(out@ =~= self@);
        out
    }
}

fn decoding_error() -> (e: Error)
    ensures
        e is InternalError,
{
    Error::InternalError("value could not be decoded".to_owned())
}

pub(crate) fn read_u32(bytes: &[u8], at: usize) -> (r: u32)
    requires
        at + 4 <= bytes@.len(),
    ensures
        r == from_be32(bytes@.subrange(at as int, at + 4)),
{
    let r = ((bytes[at] as u32) << 24u32) | ((bytes[at + 1] as u32) << 16u32) | ((bytes[at + 2] as u32)
        << 8u32) | (bytes[at + 3] as u32);
    let ghost s = bytes@.subrange(at as int, at + 4);
    assert(s[0] == bytes@[at as int] && s[1] == bytes@[at + 1] && s[2] == bytes@[at + 2] && s[3]
        == bytes@[at + 3]);
    r
}

impl Deserialize for u32 {
    open spec fn decodable(bytes: Seq<u8>) -> bool {
        bytes.len() == 4
    }

    open spec fn decodes_to(bytes: Seq<u8>, v: u32) -> bool {
        v == from_be32(bytes)
    }

    fn deserialize(bytes: &[u8]) -> (r: Result<u32, Error>) {
        if bytes.len() != 4 {
            return Err(decoding_error());
        }
        let v = read_u32(bytes, 0);
        assert(bytes@.subrange(0, 4) =~= bytes@);
        Ok(v)
    }
}

impl Deserialize for u64 {
    open spec fn decodable(bytes: Seq<u8>) -> bool {
        bytes.len() == 8
    }

    open spec fn decodes_to(bytes: Seq<u8>, v: u64) -> bool {
        v == from_be64(bytes)
    }

    fn deserialize(bytes: &[u8]) -> (r: Result<u64, Error>) {
        if bytes.len() != 8 {
            return Err(decoding_error());
        }
        let hi = read_u32(bytes, 0);
        let lo = read_u32(bytes, 4);
        proof {
            let s = bytes@;
            let h = s.subrange(0, 4);
            assert(h[0] == s[0] && h[1] == s[1] && h[2] == s[2] && h[3] == s[3]);
            assert(from_be32(s) == from_be32(h));
        }
        Ok(((hi as u64) << 32u64) | (lo as u64))
    }
}

impl Deserialize for BlobHash {
    open spec fn decodable(bytes: Seq<u8>) -> bool {
        bytes.len() == 32
    }

    open spec fn decodes_to(bytes: Seq<u8>, v: BlobHash) -> bool {
        v@ == bytes
    }

    fn deserialize(bytes: &[u8]) -> (r: Result<BlobHash, Error>) {
        if bytes.len() != 32 {
            return Err(decoding_error());
        }
        let mut out = [0u8; 32];
        let mut i: usize = 0;
        while i < 32
            invariant
                i <= 32,
                bytes@.len() == 32,
                forall|j: int| 0 <= j < i ==> out@[j] == bytes@[j],
            decreases 32 - i,
        {
            out[i] = bytes[i];
            i = i + 1;
        }
        assert(out@ =~= bytes@);
        Ok(BlobHash(out))
    }
}


proof fn lemma_be32_decodes(v: u32)
    ensures
        from_be32(be32(v)) == v,
{
    let b = be32(v);
    assert(b[0] == (v >> 24u32) as u8 && b[1] == (v >> 16u32) as u8 && b[2] == (v >> 8u32) as u8 && b[3]
        == v as u8);
    assert((((v >> 24u32) as u8 as u32) << 24u32) | (((v >> 16u32) as u8 as u32) << 16u32) | (((v >> 8u32) as u8
        as u32) << 8u32) | (v as u8 as u32) == v) by (bit_vector);
}

/// Decoding the encoding of an integer gives the integer back.
pub proof fn lemma_u32_round_trip(v: u32)
    ensures
        <u32 as Deserialize>::decodable(v.serialized()),
        <u32 as Deserialize>::decodes_to(v.serialized(), v),
{
    lemma_be32_decodes(v);
}

/// Decoding the encoding of an integer gives the integer back.
pub proof fn lemma_u64_round_trip(v: u64)
    ensures
        <u64 as Deserialize>::decodable(v.serialized()),
        <u64 as Deserialize>::decodes_to(v.serialized(), v),
{
    let hi = (v >> 32u64) as u32;
    let lo = v as u32;
    let b = be64(v);
    lemma_be32_decodes(hi);
    lemma_be32_decodes(lo);
    assert(b.subrange(4, 8) =~= be32(lo));
    assert(b.subrange(0, 4) =~= be32(hi));
    let h = b.subrange(0, 4);
    assert(h[0] == b[0] && h[1] == b[1] && h[2] == b[2] && h[3] == b[3]);
    assert(from_be32(b) == from_be32(h));
    assert(((hi as u64) << 32u64) | (lo as u64) == v) by (bit_vector)
        requires
            hi == (v >> 32u64) as u32,
            lo == v as u32,
    ;
}

/// Distinct integers encode to distinct bytes.
pub proof fn lemma_u32_encoding_injective(a: u32, b: u32)
    requires
        a.serialized() == b.serialized(),
    ensures
        a == b,
{
    lemma_u32_round_trip(a);
    lemma_u32_round_trip(b);
}

/// Distinct integers encode to distinct bytes.
pub proof fn lemma_u64_encoding_injective(a: u64, b: u64)
    requires
        a.serialized() == b.serialized(),
    ensures
        a == b,
{
    lemma_u64_round_trip(a);
    lemma_u64_round_trip(b);
}

/// Decoding the encoding of a hash gives the hash back.
pub proof fn lemma_blob_hash_round_trip(h: BlobHash)
    ensures
        <BlobHash as Deserialize>::decodable(h.serialized()),
        <BlobHash as Deserialize>::decodes_to(h.serialized(), h),
{
}

} // verus!
