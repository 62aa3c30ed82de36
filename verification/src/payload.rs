//! Sealing of message payloads under the one-time pads of a batch: each
//! slot's GT pad is hashed into an AES-256 key, and the payload bytes are
//! sealed with AES-256-GCM under a nonce derived from the slot number.

use vstd::prelude::*;
use vstd::arithmetic::power2::{pow2, lemma_pow2_adds, lemma2_to64, lemma_pow2_pos};
use vstd::arithmetic::div_mod::lemma_div_denominator;
use aes_gcm::aead::{Aead, KeyInit};
use aes_gcm::{Aes256Gcm, Key, Nonce};
use crate::group::{Gt, GroupElem, gt_compressed};
use crate::hashing::{sha256, sha256_digest};

verus! {

/// The largest plaintext, in bytes, that AES-GCM seals.
pub const PAYLOAD_MAX: u64 = 0x10_0000_0000;

/// Byte `i` of the little-endian encoding of `v`.
pub open spec fn le_byte(v: nat, i: nat) -> u8 {
    ((v / pow2(8 * i)) % 256) as u8
}

/// The nonce of a slot: the 8-byte little-endian encoding of the slot
/// number, followed by four zero bytes.
pub open spec fn nonce_bytes(slot: nat) -> Seq<u8> {
    Seq::new(12, |i: int| if i < 8 { le_byte(slot, i as nat) } else { 0u8 })
}

/// AES-256-GCM encryption, with no associated data, of `plain` under `key`
/// and `nonce`: ciphertext followed by the 16-byte tag.
pub uninterp spec fn aes256gcm_seal(key: Seq<u8>, nonce: Seq<u8>, plain: Seq<u8>) -> Seq<u8>;

/// AES-256-GCM decryption, with no associated data, of `ct` under `key` and
/// `nonce`: `None` when the tag does not verify.
pub uninterp spec fn aes256gcm_open(key: Seq<u8>, nonce: Seq<u8>, ct: Seq<u8>) -> Option<Seq<u8>>;

/// `Aead::encrypt` of `aes_gcm::Aes256Gcm`, keyed with `key`: it fails only
/// on a plaintext longer than `2^36` bytes, and appends a 16-byte tag.
#[verifier::external_body]
fn aes256gcm_encrypt(key: &[u8; 32], nonce: &[u8; 12], plain: &[u8]) -> (ct: Vec<u8>)
    requires
        plain@.len() <= PAYLOAD_MAX,
    ensures
        ct@ == aes256gcm_seal(key@, nonce@, plain@),
        ct@.len() == plain@.len() + 16,
{
    let cipher = Aes256Gcm::new(Key::<Aes256Gcm>::from_slice(&key[..]));
    cipher.encrypt(Nonce::from_slice(&nonce[..]), plain).unwrap()
}

/// `Aead::decrypt` of `aes_gcm::Aes256Gcm`, keyed with `key`: what a seal
/// under the same key and nonce made opens to its plaintext.
#[verifier::external_body]
fn aes256gcm_decrypt(key: &[u8; 32], nonce: &[u8; 12], ct: &[u8]) -> (r: Option<Vec<u8>>)
    ensures
        r is Some <==> aes256gcm_open(key@, nonce@, ct@) is Some,
        r is Some ==> aes256gcm_open(key@, nonce@, ct@) == Some(r->0@),
        forall|p: Seq<u8>|
            p.len() <= PAYLOAD_MAX && ct@ == #[trigger] aes256gcm_seal(key@, nonce@, p) ==> (r is Some
                && r->0@ == p),
{
    let cipher = Aes256Gcm::new(Key::<Aes256Gcm>::from_slice(&key[..]));
    cipher.decrypt(Nonce::from_slice(&nonce[..]), ct).ok()
}

/// The AEAD nonce of a slot. The GT pad is fresh per slot, so a
/// deterministic nonce is fine: (key, nonce) is unique because the key is.
pub fn fixed_nonce(slot: usize) -> (n: [u8; 12])
    ensures
        n@ == nonce_bytes(slot as nat),
{
    let mut n = [0u8; 12];
    let mut v: u64 = slot as u64;
    let mut i: usize = 0;
    proof {
        lemma2_to64();
        assert(v == slot as nat / pow2(0));
        assert(n@.len() == 12);
        assert(forall|k: int| 0 <= k < 12 ==> #[trigger] n@[k] == 0u8);
    }
    while i < 8
        invariant
            0 <= i <= 8,
            v == slot as nat / pow2(8 * i as nat),
            n@.len() == 12,
            forall|k: int| 0 <= k < i ==> #[trigger] n@[k] == le_byte(slot as nat, k as nat),
            forall|k: int| i <= k < 12 ==> #[trigger] n@[k] == 0u8,
        decreases 8 - i,
    {
        n[i] = (v % 256) as u8;
        proof {
            lemma_pow2_pos(8 * i as nat);
            lemma2_to64();
            lemma_pow2_adds(8 * i as nat, 8);
            lemma_div_denominator(slot as int, pow2(8 * i as nat) as int, 256);
            assert(8 * (i + 1) == 8 * i + 8) by (nonlinear_arith);
        }
        v = v / 256;
        i += 1;
    }
    proof {
        assert(n@ =~= nonce_bytes(slot as nat));
    }
    n
}

/// Derives a 256-bit AES key from a GT element: the SHA-256 digest of its
/// compressed encoding.
pub fn gt_to_aes_key(gt: &Gt) -> (k: [u8; 32])
    ensures
        k@ == sha256(gt_compressed(gt.dlog() as nat)),
{
    let buf = gt.to_compressed_bytes();
    let h = sha256_digest(&buf);
    let mut k = [0u8; 32];
    let mut i: usize = 0;
    while i < 32
        invariant
            0 <= i <= 32,
            h@.len() == 32,
            k@.len() == 32,
            forall|j: int| 0 <= j < i ==> #[trigger] k@[j] == h@[j],
        decreases 32 - i,
    {
        k[i] = h[i];
        i += 1;
    }
    proof {
        assert(k@ =~= h@);
    }
    k
}

/// Seals the payload bytes of a slot under `key` with AES-256-GCM.
pub fn encrypt_payload(key: &[u8; 32], slot: usize, plain: &[u8]) -> (ct: Vec<u8>)
    requires
        plain@.len() <= PAYLOAD_MAX,
    ensures
        ct@ == aes256gcm_seal(key@, nonce_bytes(slot as nat), plain@),
        ct@.len() == plain@.len() + 16,
{
    let nonce_bytes = fixed_nonce(slot);
    aes256gcm_encrypt(key, &nonce_bytes, plain)
}

/// Opens the sealed payload of a slot, whose tag must verify under `key`
/// and the slot's nonce. What [`encrypt_payload`] sealed for the same key
/// and slot opens to its plaintext.
pub fn decrypt_payload(key: &[u8; 32], slot: usize, ct: &[u8]) -> (r: Vec<u8>)
    requires
        aes256gcm_open(key@, nonce_bytes(slot as nat), ct@) is Some,
    ensures
        aes256gcm_open(key@, nonce_bytes(slot as nat), ct@) == Some(r@),
        forall|p: Seq<u8>|
            p.len() <= PAYLOAD_MAX && ct@ == #[trigger] aes256gcm_seal(key@, nonce_bytes(slot as nat), p)
                ==> r@ == p,
{
    let nonce_bytes = fixed_nonce(slot);
    match aes256gcm_decrypt(key, &nonce_bytes, ct) {
        Some(plain) => plain,
        None => {
            proof {
                assert(false);
            }
            Vec::new()
        },
    }
}

/// Checks the tag of a sealed payload and opens it: `None` exactly when the
/// tag does not verify under `key` and the slot's nonce, otherwise what
/// [`decrypt_payload`] gives.
pub fn try_decrypt_payload(key: &[u8; 32], slot: usize, ct: &[u8]) -> (r: Option<Vec<u8>>)
    ensures
        r is Some <==> aes256gcm_open(key@, nonce_bytes(slot as nat), ct@) is Some,
        r matches Some(plain) ==> aes256gcm_open(key@, nonce_bytes(slot as nat), ct@) == Some(plain@),
        forall|p: Seq<u8>|
            p.len() <= PAYLOAD_MAX && ct@ == #[trigger] aes256gcm_seal(key@, nonce_bytes(slot as nat), p)
                ==> (r is Some && r->0@ == p),
{
    let nonce_bytes = fixed_nonce(slot);
    if aes256gcm_decrypt(key, &nonce_bytes, ct).is_none() {
        return None;
    }
    Some(decrypt_payload(key, slot, ct))
}

} // verus!
