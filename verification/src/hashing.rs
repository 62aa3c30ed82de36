//! Hash functions of `sha2` on byte strings, and byte-string helpers.

use vstd::prelude::*;
use sha2::{Digest, Sha256, Sha512};

verus! {

/// The SHA-512 digest of a byte string.
pub uninterp spec fn sha512(data: Seq<u8>) -> Seq<u8>;

/// The SHA-256 digest of a byte string.
pub uninterp spec fn sha256(data: Seq<u8>) -> Seq<u8>;

/// `Digest::digest` of `sha2::Sha512`: the 64-byte SHA-512 digest.
#[verifier::external_body]
pub(crate) fn sha512_digest(data: &Vec<u8>) -> (out: Vec<u8>)
    ensures
        out@ == sha512(data@),
        out@.len() == 64,
{
    Sha512::digest(&data[..]).to_vec()
}

/// `Digest::digest` of `sha2::Sha256`: the 32-byte SHA-256 digest.
#[verifier::external_body]
pub(crate) fn sha256_digest(data: &Vec<u8>) -> (out: Vec<u8>)
    ensures
        out@ == sha256(data@),
        out@.len() == 32,
{
    Sha256::digest(&data[..]).to_vec()
}

/// The bytes of a fixed array, as a vector.
pub(crate) fn bytes_of<const N: usize>(a: &[u8; N]) -> (v: Vec<u8>)
    ensures
        v@ == a@,
{
    let mut v = Vec::new();
    let mut i: usize = 0;
    while i < N
        invariant
            0 <= i <= N,
            N == a@.len(),
            v@ == a@.take(i as int),
        decreases N - i,
    {
        v.push(a[i]);
        proof {
            assert(a@.take(i + 1) =~= a@.take(i as int).push(a@[i as int]));
        }
        i += 1;
    }
    proof {
        assert(a@.take(N as int) =~= a@);
    }
    v
}

} // verus!
