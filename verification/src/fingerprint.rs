//! Deterministic content fingerprinting.
//!
//! A fingerprint is the first 16 lowercase hexadecimal characters of the
//! SHA-256 digest of a value, i.e. the hex encoding of the first 8 digest
//! bytes. Identical inputs always yield identical fingerprints; the
//! fingerprint detects content change, it is no security identity.

use vstd::prelude::*;
use sha2::Digest;

verus! {

/// A batch of values to fingerprint.
pub struct HashRequest {
    pub values: Vec<String>,
}

/// The fingerprints of a batch, in input order.
pub struct HashResponse {
    pub hashes: Vec<String>,
}

/// The SHA-256 digest of the UTF-8 encoding of a character sequence.
/// Computed only by the sha2 crate; nothing here restates the algorithm.
pub uninterp spec fn sha256_of(s: Seq<char>) -> Seq<u8>;

/// Relies on sha2::Sha256: the digest is a pure function of the input
/// bytes and is exactly 32 bytes long (its output size is declared as 32).
#[verifier::external_body]
fn sha256_digest(value: &str) -> (r: Vec<u8>)
    ensures
        r@ == sha256_of(value@),
        r@.len() == 32,
{
    let mut hasher = sha2::Sha256::new();
    hasher.update(value.as_bytes());
    hasher.finalize().to_vec()
}

/// The lowercase hexadecimal digit for a nibble value.
pub open spec fn hex_digit(n: int) -> char
    recommends
        0 <= n < 16,
{
    if n == 0 {
        '0'
    } else if n == 1 {
        '1'
    } else if n == 2 {
        '2'
    } else if n == 3 {
        '3'
    } else if n == 4 {
        '4'
    } else if n == 5 {
        '5'
    } else if n == 6 {
        '6'
    } else if n == 7 {
        '7'
    } else if n == 8 {
        '8'
    } else if n == 9 {
        '9'
    } else if n == 10 {
        'a'
    } else if n == 11 {
        'b'
    } else if n == 12 {
        'c'
    } else if n == 13 {
        'd'
    } else if n == 14 {
        'e'
    } else {
        'f'
    }
}

/// The lowercase hexadecimal digit for a nibble value, as executable code.
pub fn hex_digit_char(n: u32) -> (c: char)
    requires
        n < 16,
    ensures
        c == hex_digit(n as int),
{
    if n == 0 {
        '0'
    } else if n == 1 {
        '1'
    } else if n == 2 {
        '2'
    } else if n == 3 {
        '3'
    } else if n == 4 {
        '4'
    } else if n == 5 {
        '5'
    } else if n == 6 {
        '6'
    } else if n == 7 {
        '7'
    } else if n == 8 {
        '8'
    } else if n == 9 {
        '9'
    } else if n == 10 {
        'a'
    } else if n == 11 {
        'b'
    } else if n == 12 {
        'c'
    } else if n == 13 {
        'd'
    } else if n == 14 {
        'e'
    } else {
        'f'
    }
}

/// Lowercase hexadecimal encoding: two digits per byte, most significant
/// nibble first.
pub open spec fn hex_of(bytes: Seq<u8>) -> Seq<char>
    decreases bytes.len(),
{
    if bytes.len() == 0 {
        Seq::empty()
    } else {
        seq![hex_digit((bytes[0] >> 4) as int), hex_digit((bytes[0] & 0x0f) as int)] + hex_of(
            bytes.drop_first(),
        )
    }
}

/// The hex encoding is twice as long as its input.
pub proof fn lemma_hex_of_len(bytes: Seq<u8>)
    ensures
        hex_of(bytes).len() == 2 * bytes.len(),
    decreases bytes.len(),
{
    if bytes.len() != 0 {
        lemma_hex_of_len(bytes.drop_first());
    }
}

/// Render bytes as lowercase hexadecimal: two digits per byte, most
/// significant nibble first.
fn hex_encode(bytes: &[u8]) -> (r: String)
    ensures
        r@ == hex_of(bytes@),
{
    let n = bytes.len();
    let mut out = String::new();
    proof {
        assert(bytes@.skip(0) =~= bytes@);
    }
    let mut i: usize = 0;
    while i < n
        invariant
            n == bytes@.len(),
            i <= n,
            hex_of(bytes@) == out@ + hex_of(bytes@.skip(i as int)),
        decreases n - i,
    {
        let b = bytes[i];
        proof {
            assert(b >> 4 < 16) by (bit_vector);
            assert(b & 0x0f < 16) by (bit_vector);
            assert(bytes@.skip(i as int)[0] == b);
            assert(bytes@.skip(i as int).drop_first() =~= bytes@.skip(i + 1));
        }
        out.push(hex_digit_char((b >> 4) as u32));
        out.push(hex_digit_char((b & 0x0f) as u32));
        proof {
            assert(out@ + hex_of(bytes@.skip(i + 1)) =~= hex_of(bytes@));
        }
        i += 1;
    }
    proof {
        assert(bytes@.skip(n as int) =~= Seq::<u8>::empty());
        assert(out@ =~= out@ + hex_of(bytes@.skip(n as int)));
    }
    out
}

/// The fingerprint of a value: the hex encoding of the first 8 bytes of its
/// SHA-256 digest, which equals the first 16 hex characters of the digest.
pub open spec fn fingerprint_of(s: Seq<char>) -> Seq<char> {
    hex_of(sha256_of(s).take(8))
}

/// Fingerprint a single value. Deterministic: the result is a function of
/// the value alone, and it is always 16 characters long.
pub fn hash_value(value: &str) -> (r: String)
    ensures
        r@ == fingerprint_of(value@),
        r@.len() == 16,
{
    let digest = sha256_digest(value);
    let head = &digest[0..8];
    proof {
        assert(head@ =~= sha256_of(value@).take(8));
        lemma_hex_of_len(head@);
    }
    hex_encode(head)
}

/// Fingerprint many values in one call. Each element of the result is
/// exactly the fingerprint of the value at the same position; the batch
/// form exists only to amortize call overhead.
pub fn batch_hash_values(values: &[String]) -> (r: Vec<String>)
    ensures
        r@.len() == values@.len(),
        forall|i: int| 0 <= i < values@.len() ==> r@[i]@ == fingerprint_of(values@[i]@),
        forall|i: int| 0 <= i < values@.len() ==> r@[i]@.len() == 16,
{
    let mut r: Vec<String> = Vec::new();
    let n = values.len();
    for idx in 0..n
        invariant
            n == values@.len(),
            r@.len() == idx,
            forall|i: int| 0 <= i < idx ==> r@[i]@ == fingerprint_of(values@[i]@),
            forall|i: int| 0 <= i < idx ==> r@[i]@.len() == 16,
    {
        let h = hash_value(values[idx].as_str());
        r.push(h);
    }
    r
}

} // verus!
