//! The content-checksum primitive: an opaque hash over a file's bytes.

use vstd::prelude::*;

verus! {

/// The hex digest that the checksum primitive assigns to a byte sequence.
/// The digest is a function of the bytes alone; nothing else is assumed
/// about it.
pub uninterp spec fn sha1_hex_of(data: Seq<u8>) -> Seq<char>;

/// True for the characters that can appear in a lower-case hex digest.
pub open spec fn is_lower_hex_char(c: char) -> bool {
    (48 <= c as u32 && c as u32 <= 57) || (97 <= c as u32 && c as u32 <= 102)
}

/// An ASCII byte of a lower-case hex rendering.
pub open spec fn is_lower_hex_byte(b: u8) -> bool {
    (48 <= b && b <= 57) || (97 <= b && b <= 102)
}

/// The shape every digest has: 40 lower-case hex characters, which encode
/// to 40 ASCII hex bytes.
pub open spec fn digest_wf(d: Seq<char>) -> bool {
    &&& d.len() == 40
    &&& forall|i: int| 0 <= i < d.len() ==> is_lower_hex_char(#[trigger] d[i])
    &&& vstd::utf8::encode_utf8(d).len() == 40
    &&& forall|i: int|
        0 <= i < vstd::utf8::encode_utf8(d).len() ==> is_lower_hex_byte(
            #[trigger] vstd::utf8::encode_utf8(d)[i],
        )
}

/// Relies on rust-crypto's `Sha1::new`, `Digest::input` and
/// `Digest::result_str`: the digest of the input bytes, rendered as 40
/// lower-case hex characters (so 40 ASCII bytes), depending on the input
/// bytes alone.
#[verifier::external_body]
pub fn sha1_hex(data: &[u8]) -> (r: String)
    ensures
        r@ == sha1_hex_of(data@),
        digest_wf(r@),
{
    let mut hasher = crypto::sha1::Sha1::new();
    crypto::digest::Digest::input(&mut hasher, data);
    crypto::digest::Digest::result_str(&mut hasher)
}

} // verus!
