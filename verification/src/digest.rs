//! Content digests: SHA-256, written as lowercase hexadecimal.

use vstd::prelude::*;

use sha2::{Digest, Sha256};

verus! {

/// The SHA-256 digest of a byte sequence.
pub uninterp spec fn sha256(data: Seq<u8>) -> Seq<u8>;

/// Calls `sha2::Sha256::digest`, trusted to give the SHA-256 digest of
/// `data`: a fixed function of `data`, 32 bytes long (the output type of
/// `Sha256` is a 32-byte array).
#[verifier::external_body]
fn sha256_digest(data: &[u8]) -> (out: Vec<u8>)
    ensures
        out@ == sha256(data@),
        out@.len() == 32,
{
    Sha256::digest(data).to_vec()
}

/// The lowercase hexadecimal character of a value below 16.
pub open spec fn hex_char(d: int) -> char {
    if d < 10 {
        crate::decimal::digit_char(d)
    } else if d == 10 {
        'a'
    } else if d == 11 {
        'b'
    } else if d == 12 {
        'c'
    } else if d == 13 {
        'd'
    } else if d == 14 {
        'e'
    } else {
        'f'
    }
}

/// A lowercase hexadecimal digit.
pub open spec fn is_hex_char(c: char) -> bool {
    ('0' <= c && c <= '9') || ('a' <= c && c <= 'f')
}

/// Each byte as two lowercase hexadecimal digits, high half first.
pub open spec fn hex_lower_spec(bytes: Seq<u8>) -> Seq<char>
    decreases bytes.len(),
{
    if bytes.len() == 0 {
        seq![]
    } else {
        hex_lower_spec(bytes.drop_last()) + seq![
            hex_char(bytes.last() as int / 16),
            hex_char(bytes.last() as int % 16),
        ]
    }
}

/// The hexadecimal form has two digits per byte, and nothing but digits.
pub proof fn lemma_hex_lower(bytes: Seq<u8>)
    ensures
        hex_lower_spec(bytes).len() == 2 * bytes.len(),
        forall|i: int|
            0 <= i < hex_lower_spec(bytes).len() ==> is_hex_char(#[trigger] hex_lower_spec(bytes)[i]),
    decreases bytes.len(),
{
    if bytes.len() > 0 {
        lemma_hex_lower(bytes.drop_last());
        let h = hex_lower_spec(bytes);
        let p = hex_lower_spec(bytes.drop_last());
        assert forall|i: int| 0 <= i < h.len() implies is_hex_char(#[trigger] h[i]) by {
            if i < p.len() {
                assert(h[i] == p[i]);
            }
        }
    }
}

/// The hexadecimal character of `d`.
fn hex_digit(d: u8) -> (c: char)
    requires
        d < 16,
    ensures
        c == hex_char(d as int),
{
    if d < 10 {
        crate::decimal::digit_to_char(d as u64)
    } else if d == 10 {
        'a'
    } else if d == 11 {
        'b'
    } else if d == 12 {
        'c'
    } else if d == 13 {
        'd'
    } else if d == 14 {
        'e'
    } else {
        'f'
    }
}

/// Writes bytes as lowercase hexadecimal, two digits per byte.
pub fn hex_lower(bytes: &[u8]) -> (s: String)
    ensures
        s@ == hex_lower_spec(bytes@),
{
    let mut s = String::new();
    let mut i: usize = 0;
    while i < bytes.len()
        invariant
            i <= bytes@.len(),
            s@ == hex_lower_spec(bytes@.take(i as int)),
        decreases bytes@.len() - i,
    {
        let b = bytes[i];
        s.push(hex_digit(b / 16));
        s.push(hex_digit(b % 16));
        assert(bytes@.take(i + 1).drop_last() =~= bytes@.take(i as int));
        assert(bytes@.take(i + 1).last() == b);
        i = i + 1;
    }
    assert(bytes@.take(bytes@.len() as int) =~= bytes@);
    s
}

/// The digest of a file's contents as the scan records it: SHA-256 in
/// lowercase hexadecimal, 64 characters.
pub fn file_hash(contents: &[u8]) -> (h: String)
    ensures
        h@ == hex_lower_spec(sha256(contents@)),
        h@.len() == 64,
{
    let digest = sha256_digest(contents);
    proof {
        lemma_hex_lower(digest@);
    }
    hex_lower(digest.as_slice())
}

} // verus!
