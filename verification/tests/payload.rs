use ark_std::rand::rngs::StdRng;
use ark_std::rand::SeedableRng;
use batch_encryption::group::{GroupElem, Gt};
use batch_encryption::payload::{decrypt_payload, encrypt_payload, fixed_nonce, gt_to_aes_key, try_decrypt_payload};
use sha2::{Digest, Sha256};

#[test]
fn fixed_nonce_is_little_endian_slot() {
    assert_eq!(fixed_nonce(0), [0u8; 12]);
    assert_eq!(fixed_nonce(1), [1, 0, 0, 0, 0, 0, 0, 0, 0, 0, 0, 0]);
    assert_eq!(fixed_nonce(0x0102), [2, 1, 0, 0, 0, 0, 0, 0, 0, 0, 0, 0]);
    assert_eq!(fixed_nonce(0x0807_0605_0403_0201), [1, 2, 3, 4, 5, 6, 7, 8, 0, 0, 0, 0]);
}

#[test]
fn gt_to_aes_key_hashes_compressed_encoding() {
    let rng = &mut StdRng::seed_from_u64(31);
    let g = Gt::random(rng);
    let key = gt_to_aes_key(&g);
    let expected = Sha256::digest(&g.to_compressed_bytes());
    assert_eq!(&key[..], &expected[..]);
    let other = gt_to_aes_key(&g.plus(&Gt::generator()));
    assert_ne!(key, other);
}

#[test]
fn payload_roundtrip() {
    let rng = &mut StdRng::seed_from_u64(32);
    let key = gt_to_aes_key(&Gt::random(rng));
    let plain = b"hey, slot 3 text-only message".to_vec();
    let ct = encrypt_payload(&key, 3, &plain);
    assert_eq!(ct.len(), plain.len() + 16);
    assert_ne!(&ct[..plain.len()], &plain[..]);
    assert_eq!(decrypt_payload(&key, 3, &ct), plain);
    assert_eq!(try_decrypt_payload(&key, 3, &ct), Some(plain.clone()));
    let empty = encrypt_payload(&key, 0, &[]);
    assert_eq!(decrypt_payload(&key, 0, &empty), Vec::<u8>::new());
}

#[test]
fn payload_open_rejects_wrong_slot_key_or_tampering() {
    let rng = &mut StdRng::seed_from_u64(33);
    let key = gt_to_aes_key(&Gt::random(rng));
    let other_key = gt_to_aes_key(&Gt::random(rng));
    let plain = b"attachment ref".to_vec();
    let ct = encrypt_payload(&key, 5, &plain);
    assert_eq!(try_decrypt_payload(&key, 6, &ct), None);
    assert_eq!(try_decrypt_payload(&other_key, 5, &ct), None);
    let mut bad = ct.clone();
    bad[0] ^= 1;
    assert_eq!(try_decrypt_payload(&key, 5, &bad), None);
}
