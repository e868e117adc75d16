//! Digests and the proof-of-work predicate.
//!
//! A block digest is SHA-256 over a canonical byte string; the byte string is
//! assembled by verified code, only the hash call itself is trusted.
use vstd::prelude::*;
use vstd::utf8::{encode_utf8, encode_utf8_decode_utf8};

verus! {

/// The SHA-256 digest of a byte sequence, as a name: the function of the
/// input bytes that the `sha2` crate computes.
pub uninterp spec fn sha256_of(input: Seq<u8>) -> Seq<u8>;

/// Relies on sha2::Sha256 (through sha2::Digest::digest): the digest is a
/// function of the input bytes alone, 32 bytes wide.
#[verifier::external_body]
pub(crate) fn sha256(input: &Vec<u8>) -> (r: [u8; 32])
    ensures
        r@ == sha256_of(input@),
{
    let digest = <sha2::Sha256 as sha2::Digest>::digest(input.as_slice());
    digest.into()
}

/// The decimal ASCII digits of `n`, most significant first.
pub open spec fn dec_digits(n: nat) -> Seq<u8>
    decreases n,
{
    if n < 10 {
        seq![(48 + n) as u8]
    } else {
        dec_digits(n / 10).push((48 + n % 10) as u8)
    }
}

/// Appends the decimal digits of `n` to `out`.
pub fn push_decimal(out: &mut Vec<u8>, n: u64)
    ensures
        final(out)@ == old(out)@ + dec_digits(n as nat),
    decreases n,
{
    if n < 10 {
        out.push(48 + (n as u8));
        assert(out@ =~= old(out)@ + dec_digits(n as nat));
    } else {
        push_decimal(out, n / 10);
        out.push(48 + ((n % 10) as u8));
        assert(out@ =~= old(out)@ + dec_digits(n as nat));
    }
}

/// Appends a byte slice to `out`.
pub(crate) fn append_bytes(out: &mut Vec<u8>, src: &[u8])
    ensures
        final(out)@ == old(out)@ + src@,
{
    let mut i: usize = 0;
    while i < src.len()
        invariant
            i <= src@.len(),
            out@ == old(out)@ + src@.subrange(0, i as int),
        decreases src@.len() - i,
    {
        out.push(src[i]);
        i = i + 1;
        assert(out@ =~= old(out)@ + src@.subrange(0, i as int));
    }
    assert(out@ =~= old(out)@ + src@);
}

/// The all-zero 32-byte digest, the `previous_hash` of a genesis block.
pub open spec fn zero_digest() -> Seq<u8> {
    Seq::new(32, |i: int| 0u8)
}

/// Builds the all-zero digest.
pub fn make_zero_digest() -> (r: [u8; 32])
    ensures
        r@ == zero_digest(),
{
    let r: [u8; 32] = [0u8; 32];
    assert(r@ =~= zero_digest());
    r
}

/// The proof-of-work predicate: the first `d` bytes of the digest are zero
/// (eight bits of work per unit of difficulty).
pub open spec fn meets_difficulty(h: Seq<u8>, d: nat) -> bool {
    d <= h.len() && forall|i: int| 0 <= i < d ==> h[i] == 0
}

/// Decides the proof-of-work predicate on a digest.
pub fn check_difficulty(h: &[u8; 32], d: usize) -> (r: bool)
    ensures
        r == meets_difficulty(h@, d as nat),
{
    if d > 32 {
        return false;
    }
    let mut i: usize = 0;
    while i < d
        invariant
            i <= d <= 32,
            forall|j: int| 0 <= j < i ==> h@[j] == 0,
        decreases d - i,
    {
        if h[i] != 0 {
            return false;
        }
        i = i + 1;
    }
    true
}

/// Compares two strings by their UTF-8 bytes; byte equality and character
/// equality coincide because UTF-8 encoding is injective.
pub(crate) fn str_equal(a: &str, b: &str) -> (r: bool)
    ensures
        r == (a@ == b@),
{
    proof {
        encode_utf8_decode_utf8(a@);
        encode_utf8_decode_utf8(b@);
    }
    let ab = a.as_bytes();
    let bb = b.as_bytes();
    if ab.len() != bb.len() {
        return false;
    }
    let mut i: usize = 0;
    while i < ab.len()
        invariant
            i <= ab@.len(),
            ab@.len() == bb@.len(),
            ab@ == encode_utf8(a@),
            bb@ == encode_utf8(b@),
            forall|j: int| 0 <= j < i ==> ab@[j] == bb@[j],
        decreases ab@.len() - i,
    {
        if ab[i] != bb[i] {
            return false;
        }
        i = i + 1;
    }
    assert(ab@ =~= bb@);
    true
}

/// Compares two digests for equality.
pub(crate) fn digests_equal(a: &[u8; 32], b: &[u8; 32]) -> (r: bool)
    ensures
        r == (a@ == b@),
{
    let mut i: usize = 0;
    while i < 32
        invariant
            i <= 32,
            forall|j: int| 0 <= j < i ==> a@[j] == b@[j],
        decreases 32 - i,
    {
        if a[i] != b[i] {
            return false;
        }
        i = i + 1;
    }
    assert(a@ =~= b@);
    true
}

} // verus!
