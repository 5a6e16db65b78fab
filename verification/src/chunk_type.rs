//! The 4-byte chunk type tag: constructed only from ASCII letters, with
//! bit-flag metadata read from the case bit of each byte.

use vstd::prelude::*;
use vstd::string::StringSliceAdditionalSpecFns;

use crate::text::bytes_to_string;
use crate::ChunkError;

verus! {

/// True when `b` is an ASCII letter, upper or lower case.
pub open spec fn spec_is_alphabetic(b: u8) -> bool {
    (65 <= b <= 90) || (97 <= b <= 122)
}

/// True when every one of the 4 tag bytes is an ASCII letter.
pub open spec fn tag_bytes_ok(s: Seq<u8>) -> bool {
    s.len() == 4 && forall|i: int| 0 <= i < 4 ==> spec_is_alphabetic(#[trigger] s[i])
}

/// A validated 4-byte chunk type tag. Immutable once constructed; every
/// byte is an ASCII letter.
#[derive(Debug, Clone, Copy, PartialEq, Eq)]
pub struct ChunkType {
    bytes: [u8; 4],
}

impl View for ChunkType {
    type V = Seq<u8>;

    closed spec fn view(&self) -> Seq<u8> {
        self.bytes@
    }
}

impl ChunkType {
    /// Well-formed: all 4 bytes are ASCII letters, as the constructors enforce.
    pub open spec fn wf(&self) -> bool {
        tag_bytes_ok(self@)
    }

    /// Constructs a tag from 4 raw bytes; rejects any byte that is not an
    /// ASCII letter.
    pub fn from_bytes(bytes: [u8; 4]) -> (r: Result<ChunkType, ChunkError>)
        ensures
            tag_bytes_ok(bytes@) ==> (r matches Ok(t) && t@ == bytes@ && t.wf()),
            !tag_bytes_ok(bytes@) ==> r == Err::<ChunkType, ChunkError>(ChunkError::InvalidTagBytes),
    {
        let mut i: usize = 0;
        while i < 4
            invariant
                i <= 4,
                forall|j: int| 0 <= j < i ==> spec_is_alphabetic(#[trigger] bytes@[j]),
            decreases 4 - i,
        {
            let b = bytes[i];
            if !((b >= 65 && b <= 90) || (b >= 97 && b <= 122)) {
                return Err(ChunkError::InvalidTagBytes);
            }
            i += 1;
        }
        Ok(ChunkType { bytes })
    }

    /// Constructs a tag from text; rejects text whose UTF-8 encoding is not
    /// exactly 4 bytes, or whose bytes are not all ASCII letters.
    pub fn from_text(s: &str) -> (r: Result<ChunkType, ChunkError>)
        ensures
            tag_bytes_ok(s.spec_bytes()) ==> (r matches Ok(t) && t@ == s.spec_bytes() && t.wf()),
            !tag_bytes_ok(s.spec_bytes()) ==> r == Err::<ChunkType, ChunkError>(
                ChunkError::InvalidTagBytes,
            ),
    {
        let b = s.as_bytes();
        if b.len() != 4 {
            return Err(ChunkError::InvalidTagBytes);
        }
        ChunkType::from_bytes([b[0], b[1], b[2], b[3]])
    }

    /// The stored bytes, unchanged.
    pub fn bytes(&self) -> (r: [u8; 4])
        ensures
            r@ == self@,
    {
        self.bytes
    }

    /// A tag is valid exactly when its reserved bit is valid.
    pub fn is_valid(&self) -> (r: bool)
        ensures
            r == (self@[2] & 0x20 == 0),
    {
        self.is_reserved_bit_valid()
    }

    /// Critical when the case bit of byte 0 is clear (upper-case letter).
    pub fn is_critical(&self) -> (r: bool)
        ensures
            r == (self@[0] & 0x20 == 0),
    {
        (self.bytes[0] & 0x20) == 0
    }

    /// Public when the case bit of byte 1 is clear (upper-case letter).
    pub fn is_public(&self) -> (r: bool)
        ensures
            r == (self@[1] & 0x20 == 0),
    {
        (self.bytes[1] & 0x20) == 0
    }

    /// Reserved bit valid when the case bit of byte 2 is clear.
    pub fn is_reserved_bit_valid(&self) -> (r: bool)
        ensures
            r == (self@[2] & 0x20 == 0),
    {
        (self.bytes[2] & 0x20) == 0
    }

    /// Safe to copy when the case bit of byte 3 is set (lower-case letter).
    pub fn is_safe_to_copy(&self) -> (r: bool)
        ensures
            r == (self@[3] & 0x20 != 0),
    {
        (self.bytes[3] & 0x20) != 0
    }

    /// The tag rendered as text: its 4 letters. A validated tag is always
    /// ASCII, so its bytes are exactly the UTF-8 bytes of the result.
    pub fn to_text(&self) -> (r: String)
        requires
            self.wf(),
        ensures
            r@.len() == 4,
            forall|i: int| 0 <= i < 4 ==> r@[i] == self@[i] as char,
            vstd::utf8::encode_utf8(r@) == self@,
    {
        proof {
            crate::text::lemma_ascii_decode(self@);
            vstd::utf8::decode_utf8_encode_utf8(self@);
        }
        match bytes_to_string(self.bytes.as_slice()) {
            Some(s) => s,
            None => vstd::pervasive::unreached(),
        }
    }

    /// Byte-wise equality of two tags.
    pub fn matches(&self, other: &ChunkType) -> (r: bool)
        ensures
            r == (self@ == other@),
    {
        if self.bytes[0] == other.bytes[0] && self.bytes[1] == other.bytes[1] && self.bytes[2]
            == other.bytes[2] && self.bytes[3] == other.bytes[3] {
            proof {
                assert(self@ =~= other@);
            }
            true
        } else {
            false
        }
    }
}

} // verus!
