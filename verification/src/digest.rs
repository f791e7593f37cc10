//! Content keys: fixed-width digests of canonical byte encodings.
//!
//! A content key identifies a stored value by its content alone.  The
//! pool relies on the digest being collision-resistant: two distinct
//! encodings that happen to digest alike would silently alias, an
//! accepted limitation of content addressing.

use vstd::prelude::*;

use crypto::digest::Digest;

verus! {

/// How many bytes a content key has.
pub const KEY_LEN: usize = 20;

/// The digest of a byte sequence: a pure function of the bytes alone.
pub uninterp spec fn digest_of(bytes: Seq<u8>) -> Seq<u8>;

/// The lowercase hex digit for a value below sixteen.
pub open spec fn hex_digit(n: int) -> u8 {
    if n < 10 {
        (48 + n) as u8
    } else {
        (87 + n) as u8
    }
}

/// The lowercase hex rendering of a byte sequence: two digits per
/// byte, high nibble first.
pub open spec fn hex_encoding(bytes: Seq<u8>) -> Seq<u8> {
    Seq::new(
        2 * bytes.len(),
        |i: int|
            if i % 2 == 0 {
                hex_digit(bytes[i / 2] as int / 16)
            } else {
                hex_digit(bytes[i / 2] as int % 16)
            },
    )
}

/// Render bytes as lowercase hex digits.
pub fn hex_bytes(v: &Vec<u8>) -> (r: Vec<u8>)
    ensures
        r@ == hex_encoding(v@),
{
    let mut r: Vec<u8> = Vec::new();
    let mut i: usize = 0;
    while i < v.len()
        invariant
            i <= v@.len(),
            r@.len() == 2 * i,
            forall|j: int| 0 <= j < r@.len() ==> r@[j] == hex_encoding(v@)[j],
        decreases v@.len() - i,
    {
        let b = v[i];
        let hi = b / 16;
        let lo = b % 16;
        r.push(if hi < 10 { 48 + hi } else { 87 + hi });
        r.push(if lo < 10 { 48 + lo } else { 87 + lo });
        i = i + 1;
    }
    proof {
        assert(r@ =~= hex_encoding(v@));
    }
    r
}

/// Relies on `crypto::sha1::Sha1` (`new`, `input`, `result`): the SHA-1
/// digest is a function of the input bytes alone, 20 bytes wide.
#[verifier::external_body]
pub(crate) fn digest_bytes(data: &Vec<u8>) -> (r: Vec<u8>)
    ensures
        r@ == digest_of(data@),
        r@.len() == KEY_LEN,
{
    let mut h = crypto::sha1::Sha1::new();
    h.input(data.as_slice());
    let mut out = vec![0u8; 20];
    h.result(&mut out);
    out
}

} // verus!
