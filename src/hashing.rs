use vstd::prelude::*;

verus! {

/// The lowercase hexadecimal SHA-256 digest of a byte string.
pub uninterp spec fn sha256_hex(data: Seq<u8>) -> Seq<char>;

/// A lowercase hexadecimal digit.
pub open spec fn is_lower_hex(c: char) -> bool {
    ('0' <= c <= '9') || ('a' <= c <= 'f')
}

/// Relies on `sha256::digest` over a byte vector, which is
/// `hex::encode(Sha256::digest(data))`: a 32-byte digest written as 64
/// lowercase hexadecimal digits.
#[verifier::external_body]
pub(crate) fn hex_digest(data: &Vec<u8>) -> (r: String)
    ensures
        r@ == sha256_hex(data@),
        r@.len() == 64,
        forall|i: int| 0 <= i < r@.len() ==> is_lower_hex(#[trigger] r@[i]),
{
    sha256::digest(data)
}

} // verus!
