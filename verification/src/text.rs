//! The one trusted boundary to std's UTF-8 validation, and what the library
//! proves about ASCII byte sequences under it.

use vstd::prelude::*;
use vstd::utf8::{
    decode_first_codepoint, is_leading_byte_width_1, length_of_first_codepoint, decode_utf8,
    pop_first_scalar, valid_first_scalar, valid_utf8,
};

verus! {

/// ASCII bytes are valid UTF-8 and decode to themselves, character for
/// character.
pub proof fn lemma_ascii_decode(b: Seq<u8>)
    requires
        forall|i: int| 0 <= i < b.len() ==> b[i] < 128,
    ensures
        valid_utf8(b),
        decode_utf8(b).len() == b.len(),
        forall|i: int| 0 <= i < b.len() ==> decode_utf8(b)[i] == b[i] as char,
    decreases b.len(),
{
    if b.len() > 0 {
        let b0 = b[0];
        assert(b0 & 0x7f == b0) by (bit_vector)
            requires
                b0 < 128,
        ;
        assert(is_leading_byte_width_1(b0));
        assert(decode_first_codepoint(b) == b0 as u32);
        assert(length_of_first_codepoint(b) == 1);
        assert(valid_first_scalar(b));
        assert(pop_first_scalar(b) =~= b.drop_first());
        lemma_ascii_decode(b.drop_first());
        assert(decode_utf8(b) == seq![(b0 as u32) as char] + decode_utf8(b.drop_first()));
        assert forall|i: int| 0 <= i < b.len() implies decode_utf8(b)[i] == b[i] as char by {
            if i > 0 {
                assert(decode_utf8(b)[i] == decode_utf8(b.drop_first())[i - 1]);
            }
        }
    }
}

/// Relies on std's `str::from_utf8`: it returns `Ok` exactly when the bytes
/// are a valid UTF-8 encoding, and the resulting string holds the decoded
/// characters; `str::to_owned` copies them into an owned `String`.
#[verifier::external_body]
pub(crate) fn bytes_to_string(b: &[u8]) -> (r: Option<String>)
    ensures
        r is Some <==> valid_utf8(b@),
        r matches Some(s) ==> s@ == decode_utf8(b@),
{
    match std::str::from_utf8(b) {
        Ok(s) => Some(s.to_owned()),
        Err(_) => None,
    }
}

} // verus!
