//! A single container record: tag + payload + derived CRC-32 checksum, with
//! its exact byte layout `length(4B,BE) ++ tag(4B) ++ payload ++ checksum(4B,BE)`.

use vstd::prelude::*;
use vstd::slice::{slice_subrange, slice_to_vec};
use vstd::utf8::{decode_utf8, valid_utf8};

use crate::chunk_type::{tag_bytes_ok, ChunkType};
use crate::crc::{compute_crc, spec_crc32};
use crate::text::bytes_to_string;
use crate::ChunkError;

verus! {

/// The big-endian `u32` held by the first 4 bytes of `s`.
pub open spec fn spec_be32(s: Seq<u8>) -> u32
    recommends
        s.len() == 4,
{
    ((s[0] as u32) << 24) | ((s[1] as u32) << 16) | ((s[2] as u32) << 8) | (s[3] as u32)
}

/// The 4 big-endian bytes of `x`.
pub open spec fn spec_u32_to_be(x: u32) -> Seq<u8> {
    seq![
        (((x >> 24) & 0xff) as u8),
        (((x >> 16) & 0xff) as u8),
        (((x >> 8) & 0xff) as u8),
        ((x & 0xff) as u8),
    ]
}

/// Reading back the 4 big-endian bytes of `x` yields `x`.
pub proof fn lemma_be32_round_trip(x: u32)
    ensures
        spec_be32(spec_u32_to_be(x)) == x,
{
    assert(((((((x >> 24) & 0xff) as u8) as u32) << 24) | (((((x >> 16) & 0xff) as u8) as u32)
        << 16) | (((((x >> 8) & 0xff) as u8) as u32) << 8) | (((x & 0xff) as u8) as u32)) == x)
        by (bit_vector);
}

/// Reads a big-endian `u32` out of 4 bytes.
fn be32_from(b0: u8, b1: u8, b2: u8, b3: u8) -> (r: u32)
    ensures
        r == spec_be32(seq![b0, b1, b2, b3]),
{
    ((b0 as u32) << 24) | ((b1 as u32) << 16) | ((b2 as u32) << 8) | (b3 as u32)
}

/// Reads the big-endian `u32` at offset `pos`.
pub(crate) fn be32_at(bytes: &[u8], pos: usize) -> (r: u32)
    requires
        pos + 4 <= bytes@.len(),
    ensures
        r == spec_be32(bytes@.subrange(pos as int, pos as int + 4)),
{
    let r = be32_from(bytes[pos], bytes[pos + 1], bytes[pos + 2], bytes[pos + 3]);
    proof {
        assert(seq![bytes@[pos as int], bytes@[pos as int + 1], bytes@[pos as int + 2], bytes@[pos as int + 3]]
            =~= bytes@.subrange(pos as int, pos as int + 4));
    }
    r
}

/// Appends the 4 big-endian bytes of `x` to `v`.
fn push_be32(v: &mut Vec<u8>, x: u32)
    ensures
        final(v)@ == old(v)@ + spec_u32_to_be(x),
{
    proof {
        assert((x >> 24) & 0xff < 256 && (x >> 16) & 0xff < 256 && (x >> 8) & 0xff < 256 && x
            & 0xff < 256) by (bit_vector);
    }
    v.push((((x >> 24) & 0xff) as u8));
    v.push((((x >> 16) & 0xff) as u8));
    v.push((((x >> 8) & 0xff) as u8));
    v.push(((x & 0xff) as u8));
    proof {
        assert(v@ =~= old(v)@ + spec_u32_to_be(x));
    }
}

/// The mathematical content of a chunk: tag bytes, payload bytes, checksum.
#[verifier::ext_equal]
pub ghost struct ChunkRep {
    pub tag: Seq<u8>,
    pub data: Seq<u8>,
    pub crc: u32,
}

/// Well-formed chunk content: a 4-letter tag, a payload that fits the 32-bit
/// length field, and a checksum that is the CRC-32 of tag ++ payload.
pub open spec fn chunk_rep_wf(c: ChunkRep) -> bool {
    &&& tag_bytes_ok(c.tag)
    &&& c.data.len() <= 0xffffffff
    &&& c.crc == spec_crc32(c.tag + c.data)
}

/// The exact byte layout of a chunk.
pub open spec fn spec_chunk_bytes(c: ChunkRep) -> Seq<u8> {
    spec_u32_to_be(c.data.len() as u32) + c.tag + c.data + spec_u32_to_be(c.crc)
}

/// Decoding a chunk from bytes: read the 4-byte big-endian length, demand the
/// buffer hold exactly length + 12 bytes, check the trailing checksum against
/// the CRC-32 of tag ++ payload, then validate the tag.
pub open spec fn spec_chunk_decode(b: Seq<u8>) -> Result<ChunkRep, ChunkError> {
    if b.len() < 12 {
        Err(ChunkError::TruncatedInput)
    } else {
        let len = spec_be32(b.subrange(0, 4));
        if b.len() != len + 12 {
            Err(
                ChunkError::InvalidChunkLength {
                    expected: len,
                    received: ((b.len() - 12) as u32),
                },
            )
        } else {
            let declared = spec_be32(b.subrange(b.len() - 4, b.len() as int));
            let computed = spec_crc32(b.subrange(4, b.len() - 4));
            if computed != declared {
                Err(ChunkError::InvalidChunkCrc { expected: declared, computed })
            } else if !tag_bytes_ok(b.subrange(4, 8)) {
                Err(ChunkError::InvalidTagBytes)
            } else {
                Ok(
                    ChunkRep {
                        tag: b.subrange(4, 8),
                        data: b.subrange(8, b.len() - 4),
                        crc: declared,
                    },
                )
            }
        }
    }
}

/// One record of the container: a validated tag, an opaque payload, and the
/// CRC-32 of tag ++ payload. Immutable after construction.
#[derive(Debug, Clone, PartialEq, Eq)]
pub struct Chunk {
    chunk_type: ChunkType,
    data: Vec<u8>,
    crc: u32,
}

impl View for Chunk {
    type V = ChunkRep;

    closed spec fn view(&self) -> ChunkRep {
        ChunkRep { tag: self.chunk_type@, data: self.data@, crc: self.crc }
    }
}

impl Chunk {
    /// Well-formed: see `chunk_rep_wf`. Every constructor establishes this.
    pub open spec fn wf(&self) -> bool {
        chunk_rep_wf(self@)
    }

    /// Builds a chunk from a tag and a payload, deriving the checksum.
    pub fn new(chunk_type: ChunkType, data: Vec<u8>) -> (r: Chunk)
        requires
            chunk_type.wf(),
            data@.len() <= 0xffffffff,
        ensures
            r@.tag == chunk_type@,
            r@.data == data@,
            r.wf(),
    {
        let tb = chunk_type.bytes();
        let mut bytes: Vec<u8> = Vec::new();
        bytes.push(tb[0]);
        bytes.push(tb[1]);
        bytes.push(tb[2]);
        bytes.push(tb[3]);
        proof {
            assert(bytes@ =~= chunk_type@ + data@.subrange(0, 0));
        }
        let mut i: usize = 0;
        while i < data.len()
            invariant
                i <= data@.len(),
                bytes@ == chunk_type@ + data@.subrange(0, i as int),
            decreases data@.len() - i,
        {
            bytes.push(data[i]);
            proof {
                assert(bytes@ =~= chunk_type@ + data@.subrange(0, i as int + 1));
            }
            i += 1;
        }
        proof {
            assert(data@.subrange(0, data@.len() as int) =~= data@);
        }
        let crc = compute_crc(bytes.as_slice());
        Chunk { chunk_type, data, crc }
    }

    /// The payload length, as held by the 32-bit length field.
    pub fn length(&self) -> (r: u32)
        requires
            self.wf(),
        ensures
            r == self@.data.len(),
    {
        self.data.len() as u32
    }

    /// The chunk's tag.
    pub fn chunk_type(&self) -> (r: &ChunkType)
        ensures
            r@ == self@.tag,
    {
        &self.chunk_type
    }

    /// The payload bytes.
    pub fn data(&self) -> (r: &[u8])
        ensures
            r@ == self@.data,
    {
        self.data.as_slice()
    }

    /// The stored checksum.
    pub fn crc(&self) -> (r: u32)
        ensures
            r == self@.crc,
    {
        self.crc
    }

    /// The payload decoded as UTF-8 text; fails with `InvalidUtf8` exactly
    /// when the payload is not valid UTF-8.
    pub fn data_as_string(&self) -> (r: Result<String, ChunkError>)
        ensures
            valid_utf8(self@.data) ==> (r matches Ok(s) && s@ == decode_utf8(self@.data)),
            !valid_utf8(self@.data) ==> r == Err::<String, ChunkError>(ChunkError::InvalidUtf8),
    {
        match bytes_to_string(self.data.as_slice()) {
            Some(s) => Ok(s),
            None => Err(ChunkError::InvalidUtf8),
        }
    }

    /// Serializes to the exact byte layout; the inverse of `decode`.
    pub fn as_bytes(&self) -> (r: Vec<u8>)
        requires
            self.wf(),
        ensures
            r@ == spec_chunk_bytes(self@),
    {
        let mut out: Vec<u8> = Vec::new();
        push_be32(&mut out, self.data.len() as u32);
        let tb = self.chunk_type.bytes();
        out.push(tb[0]);
        out.push(tb[1]);
        out.push(tb[2]);
        out.push(tb[3]);
        proof {
            assert(out@ =~= spec_u32_to_be(self@.data.len() as u32) + self@.tag + self@
                .data.subrange(0, 0));
        }
        let mut i: usize = 0;
        while i < self.data.len()
            invariant
                i <= self@.data.len(),
                out@ == spec_u32_to_be(self@.data.len() as u32) + self@.tag + self@.data.subrange(
                    0,
                    i as int,
                ),
            decreases self@.data.len() - i,
        {
            out.push(self.data[i]);
            proof {
                assert(out@ =~= spec_u32_to_be(self@.data.len() as u32) + self@.tag + self@
                    .data.subrange(0, i as int + 1));
            }
            i += 1;
        }
        proof {
            assert(self@.data.subrange(0, self@.data.len() as int) =~= self@.data);
        }
        push_be32(&mut out, self.crc);
        proof {
            assert(out@ =~= spec_chunk_bytes(self@));
        }
        out
    }

    /// Decodes a chunk from its exact byte layout, step for step as
    /// `spec_chunk_decode` states it.
    pub fn decode(bytes: &[u8]) -> (r: Result<Chunk, ChunkError>)
        ensures
            r matches Ok(c) ==> spec_chunk_decode(bytes@) == Ok::<ChunkRep, ChunkError>(c@)
                && c.wf(),
            r matches Err(e) ==> spec_chunk_decode(bytes@) == Err::<ChunkRep, ChunkError>(e),
    {
        let n = bytes.len();
        if n < 12 {
            return Err(ChunkError::TruncatedInput);
        }
        let len = be32_from(bytes[0], bytes[1], bytes[2], bytes[3]);
        proof {
            assert(seq![bytes@[0], bytes@[1], bytes@[2], bytes@[3]] =~= bytes@.subrange(0, 4));
        }
        if (n as u64) != (len as u64) + 12 {
            let received = #[verifier::truncate] ((n - 12) as u32);
            return Err(ChunkError::InvalidChunkLength { expected: len, received });
        }
        let declared = be32_from(bytes[n - 4], bytes[n - 3], bytes[n - 2], bytes[n - 1]);
        proof {
            assert(seq![bytes@[n - 4], bytes@[n - 3], bytes@[n - 2], bytes@[n - 1]]
                =~= bytes@.subrange(n as int - 4, n as int));
        }
        let body = slice_subrange(bytes, 4, n - 4);
        let computed = compute_crc(body);
        if computed != declared {
            return Err(ChunkError::InvalidChunkCrc { expected: declared, computed });
        }
        let chunk_type = match ChunkType::from_bytes([bytes[4], bytes[5], bytes[6], bytes[7]]) {
            Ok(t) => t,
            Err(e) => {
                proof {
                    assert(seq![bytes@[4], bytes@[5], bytes@[6], bytes@[7]] =~= bytes@.subrange(
                        4,
                        8,
                    ));
                }
                return Err(e);
            },
        };
        proof {
            assert(seq![bytes@[4], bytes@[5], bytes@[6], bytes@[7]] =~= bytes@.subrange(4, 8));
        }
        let data = slice_to_vec(slice_subrange(bytes, 8, n - 4));
        let c = Chunk { chunk_type, data, crc: declared };
        proof {
            assert(c@.tag + c@.data =~= bytes@.subrange(4, n as int - 4));
            assert(spec_chunk_decode(bytes@) == Ok::<ChunkRep, ChunkError>(c@));
        }
        Ok(c)
    }
}

/// Round trip: decoding a well-formed chunk's serialized bytes yields the
/// chunk back, bit for bit.
pub proof fn lemma_chunk_round_trip(c: ChunkRep)
    requires
        chunk_rep_wf(c),
    ensures
        spec_chunk_decode(spec_chunk_bytes(c)) == Ok::<ChunkRep, ChunkError>(c),
{
    let b = spec_chunk_bytes(c);
    let n = b.len() as int;
    assert(n == c.data.len() + 12);
    lemma_be32_round_trip(c.data.len() as u32);
    lemma_be32_round_trip(c.crc);
    assert(b.subrange(0, 4) =~= spec_u32_to_be(c.data.len() as u32));
    assert(b.subrange(n - 4, n) =~= spec_u32_to_be(c.crc));
    assert(b.subrange(4, n - 4) =~= c.tag + c.data);
    assert(b.subrange(4, 8) =~= c.tag);
    assert(b.subrange(8, n - 4) =~= c.data);
    assert(spec_chunk_decode(b) matches Ok(d) && d =~= c);
}

/// Tamper detection: any same-length rewrite of a serialized chunk that keeps
/// the length and tag fields but breaks the checksum equation is rejected
/// with `InvalidChunkCrc`. (A rewrite that happens to keep the checksum
/// equation intact is outside this statement.)
pub proof fn lemma_tampered_chunk_fails_crc(c: ChunkRep, t: Seq<u8>)
    requires
        chunk_rep_wf(c),
        t.len() == spec_chunk_bytes(c).len(),
        t.subrange(0, 8) == spec_chunk_bytes(c).subrange(0, 8),
        spec_be32(t.subrange(t.len() - 4, t.len() as int)) != spec_crc32(
            t.subrange(4, t.len() - 4),
        ),
    ensures
        spec_chunk_decode(t) == Err::<ChunkRep, ChunkError>(
            ChunkError::InvalidChunkCrc {
                expected: spec_be32(t.subrange(t.len() - 4, t.len() as int)),
                computed: spec_crc32(t.subrange(4, t.len() - 4)),
            },
        ),
{
    let b = spec_chunk_bytes(c);
    let n = t.len() as int;
    assert(n == c.data.len() + 12);
    lemma_be32_round_trip(c.data.len() as u32);
    assert(b.subrange(0, 4) =~= spec_u32_to_be(c.data.len() as u32));
    assert(t.subrange(0, 4) =~= b.subrange(0, 8).subrange(0, 4));
    assert(b.subrange(0, 4) =~= b.subrange(0, 8).subrange(0, 4));
    assert(spec_be32(t.subrange(0, 4)) == c.data.len() as u32);
}

/// Length mismatch: shrinking or growing the payload region of a serialized
/// chunk while leaving the length field alone is rejected with
/// `InvalidChunkLength`, whatever trailing checksum bytes are supplied.
pub proof fn lemma_resized_payload_fails_length(c: ChunkRep, data2: Seq<u8>, crc2: Seq<u8>)
    requires
        chunk_rep_wf(c),
        data2.len() != c.data.len(),
        data2.len() <= 0xffffffff,
        crc2.len() == 4,
    ensures
        spec_chunk_decode(spec_u32_to_be(c.data.len() as u32) + c.tag + data2 + crc2)
            == Err::<ChunkRep, ChunkError>(
            ChunkError::InvalidChunkLength {
                expected: c.data.len() as u32,
                received: data2.len() as u32,
            },
        ),
{
    let t = spec_u32_to_be(c.data.len() as u32) + c.tag + data2 + crc2;
    let n = t.len() as int;
    assert(n == data2.len() + 12);
    lemma_be32_round_trip(c.data.len() as u32);
    assert(t.subrange(0, 4) =~= spec_u32_to_be(c.data.len() as u32));
    assert(spec_be32(t.subrange(0, 4)) == c.data.len() as u32);
    assert((n - 12) as u32 == data2.len() as u32);
}

} // verus!
