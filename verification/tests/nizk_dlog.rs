use ark_std::rand::rngs::StdRng;
use ark_std::rand::SeedableRng;
use batch_encryption::field::Scalar;
use batch_encryption::group::{GroupElem, G1};
use batch_encryption::nizk_dlog::{
    prove, verify, verify_batch, verify_batch_with_weights, Proof, Sha512Oracle, Statement,
};

fn sample_instance(rng: &mut StdRng) -> (Statement, Scalar) {
    let w = Scalar::random(rng);
    let h = G1::generator().times(&w);
    (Statement { h }, w)
}

fn honest_batch(ell: usize, rng: &mut StdRng) -> (Vec<Statement>, Vec<Proof>) {
    let mut stmts = Vec::with_capacity(ell);
    let mut proofs = Vec::with_capacity(ell);
    for _ in 0..ell {
        let (s, w) = sample_instance(rng);
        let p = prove::<Sha512Oracle>(&s, &w, rng);
        stmts.push(s);
        proofs.push(p);
    }
    (stmts, proofs)
}

#[test]
fn nizk_dlog_test_honest_proof_verifies() {
    let rng = &mut StdRng::seed_from_u64(11);
    let (stmt, w) = sample_instance(rng);
    let proof = prove::<Sha512Oracle>(&stmt, &w, rng);
    assert!(verify::<Sha512Oracle>(&stmt, &proof));
}

#[test]
fn nizk_dlog_test_wrong_witness_fails() {
    let rng = &mut StdRng::seed_from_u64(12);
    let (stmt, _w) = sample_instance(rng);
    let bad_w = Scalar::random(rng);
    let proof = prove::<Sha512Oracle>(&stmt, &bad_w, rng);
    assert!(!verify::<Sha512Oracle>(&stmt, &proof));
}

#[test]
fn test_tampered_w_hat_fails() {
    let rng = &mut StdRng::seed_from_u64(13);
    let (stmt, w) = sample_instance(rng);
    let mut proof = prove::<Sha512Oracle>(&stmt, &w, rng);
    proof.w_hat = proof.w_hat.add(&Scalar::from_u64(1));
    assert!(!verify::<Sha512Oracle>(&stmt, &proof));
}

#[test]
fn test_tampered_x_prime_fails() {
    let rng = &mut StdRng::seed_from_u64(14);
    let (stmt, w) = sample_instance(rng);
    let mut proof = prove::<Sha512Oracle>(&stmt, &w, rng);
    proof.x_prime = proof.x_prime.plus(&G1::generator());
    assert!(!verify::<Sha512Oracle>(&stmt, &proof));
}

#[test]
fn nizk_dlog_test_wrong_statement_fails() {
    let rng = &mut StdRng::seed_from_u64(15);
    let (stmt, w) = sample_instance(rng);
    let proof = prove::<Sha512Oracle>(&stmt, &w, rng);
    let bad_stmt = Statement { h: G1::generator().times(&Scalar::random(rng)) };
    assert!(!verify::<Sha512Oracle>(&bad_stmt, &proof));
}

#[test]
fn test_batch_verify_all_honest() {
    let rng = &mut StdRng::seed_from_u64(16);
    let (stmts, proofs) = honest_batch(16, rng);
    assert!(verify_batch::<Sha512Oracle>(&stmts, &proofs, rng));
}

#[test]
fn test_batch_verify_detects_one_bad_w_hat() {
    let rng = &mut StdRng::seed_from_u64(17);
    let (stmts, mut proofs) = honest_batch(8, rng);
    proofs[3].w_hat = proofs[3].w_hat.add(&Scalar::from_u64(1));
    assert!(!verify_batch::<Sha512Oracle>(&stmts, &proofs, rng));
}

#[test]
fn test_batch_verify_detects_one_bad_x_prime() {
    let rng = &mut StdRng::seed_from_u64(18);
    let (stmts, mut proofs) = honest_batch(8, rng);
    proofs[5].x_prime = proofs[5].x_prime.plus(&G1::generator());
    assert!(!verify_batch::<Sha512Oracle>(&stmts, &proofs, rng));
}

#[test]
fn test_batch_verify_empty() {
    let rng = &mut StdRng::seed_from_u64(19);
    let stmts: Vec<Statement> = Vec::new();
    let proofs: Vec<Proof> = Vec::new();
    assert!(verify_batch::<Sha512Oracle>(&stmts, &proofs, rng));
}

#[test]
fn test_batch_verify_singleton_matches_single() {
    let rng = &mut StdRng::seed_from_u64(20);
    let (s, w) = sample_instance(rng);
    let p = prove::<Sha512Oracle>(&s, &w, rng);
    assert!(verify::<Sha512Oracle>(&s, &p));
    assert!(verify_batch::<Sha512Oracle>(std::slice::from_ref(&s), std::slice::from_ref(&p), rng));
}

#[test]
fn empty_batch_draws_nothing() {
    let rng = &mut StdRng::seed_from_u64(21);
    let mut before = rng.clone();
    assert!(verify_batch::<Sha512Oracle>(&[], &[], rng));
    assert!(Scalar::random(rng).equals(&Scalar::random(&mut before)));
}

#[test]
fn one_tampered_response_is_caught_exactly_by_a_nonzero_weight() {
    let rng = &mut StdRng::seed_from_u64(22);
    let (stmts, mut proofs) = honest_batch(6, rng);
    proofs[2].w_hat = proofs[2].w_hat.add(&Scalar::from_u64(1));
    let mut gammas: Vec<Scalar> = (0..6).map(|_| Scalar::random(rng)).collect();
    assert!(!verify_batch_with_weights::<Sha512Oracle>(&stmts, &proofs, &gammas));
    gammas[2] = Scalar::zero();
    assert!(verify_batch_with_weights::<Sha512Oracle>(&stmts, &proofs, &gammas));
    gammas[2] = Scalar::one();
    assert!(!verify_batch_with_weights::<Sha512Oracle>(&stmts, &proofs, &gammas));
}

#[test]
fn test_serde_roundtrip() {
    let rng = &mut StdRng::seed_from_u64(16);
    let (stmt, w) = sample_instance(rng);
    let proof = prove::<Sha512Oracle>(&stmt, &w, rng);

    let buf = proof.to_compressed_bytes();
    let deserialized = Proof::from_compressed_bytes(&buf[..]).unwrap();
    assert!(verify::<Sha512Oracle>(&stmt, &deserialized));
}

#[test]
fn proof_bytes_are_scalar_then_point_and_bad_bytes_are_refused() {
    let rng = &mut StdRng::seed_from_u64(17);
    let (stmt, w) = sample_instance(rng);
    let proof = prove::<Sha512Oracle>(&stmt, &w, rng);
    let buf = proof.to_compressed_bytes();
    assert_eq!(buf.len(), 80);
    assert_eq!(&buf[..32], &proof.w_hat.to_compressed_bytes()[..]);
    assert_eq!(&buf[32..], &proof.x_prime.to_compressed_bytes()[..]);
    // trailing bytes are left unread
    let mut longer = buf.clone();
    longer.extend_from_slice(&[7, 7, 7]);
    let back = Proof::from_compressed_bytes(&longer[..]).unwrap();
    assert!(back.w_hat.equals(&proof.w_hat) && back.x_prime.equals(&proof.x_prime));
    // too short
    assert!(Proof::from_compressed_bytes(&buf[..79]).is_none());
    // a scalar that is not below r
    let mut big = buf.clone();
    for b in big[..32].iter_mut() {
        *b = 0xff;
    }
    assert!(Proof::from_compressed_bytes(&big[..]).is_none());
    // point bytes without the compression flag
    let mut bad_point = buf.clone();
    bad_point[32] &= 0x7f;
    assert!(Proof::from_compressed_bytes(&bad_point[..]).is_none());
}
