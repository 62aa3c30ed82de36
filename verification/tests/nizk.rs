use ark_std::rand::rngs::StdRng;
use ark_std::rand::SeedableRng;
use batch_encryption::field::Scalar;
use batch_encryption::group::{GroupElem, G1};
use batch_encryption::nizk::{
    prove, verify, verify_batch, verify_batch_with_weights, NizkParams, Proof, Sha256Oracle, Statement,
};

fn sample_instance(rng: &mut StdRng) -> (NizkParams, Statement, Scalar) {
    let alpha = Scalar::random(rng);
    let x0 = G1::generator().times(&alpha);
    let w = Scalar::random(rng);
    let x1 = G1::generator().times(&w);
    let x2 = x0.times(&w);
    (NizkParams { x0 }, Statement { x1, x2 }, w)
}

#[test]
fn nizk_test_honest_proof_verifies() {
    let rng = &mut StdRng::seed_from_u64(1);
    let (params, statement, w) = sample_instance(rng);
    let proof = prove::<Sha256Oracle>(&params, &statement, &w, rng);
    assert!(verify::<Sha256Oracle>(&params, &statement, &proof));
}

#[test]
fn nizk_test_wrong_witness_fails() {
    let rng = &mut StdRng::seed_from_u64(2);
    let (params, statement, _w) = sample_instance(rng);
    let bad_w = Scalar::random(rng);
    let proof = prove::<Sha256Oracle>(&params, &statement, &bad_w, rng);
    assert!(!verify::<Sha256Oracle>(&params, &statement, &proof));
}

#[test]
fn test_tampered_proof_fails() {
    let rng = &mut StdRng::seed_from_u64(3);
    let (params, statement, w) = sample_instance(rng);
    let mut proof = prove::<Sha256Oracle>(&params, &statement, &w, rng);
    proof.w_hat = proof.w_hat.add(&Scalar::from_u64(1));
    assert!(!verify::<Sha256Oracle>(&params, &statement, &proof));
}

#[test]
fn nizk_test_wrong_statement_fails() {
    let rng = &mut StdRng::seed_from_u64(4);
    let (params, statement, w) = sample_instance(rng);
    let proof = prove::<Sha256Oracle>(&params, &statement, &w, rng);
    let bad_statement = Statement {
        x1: statement.x1.duplicate(),
        x2: G1::generator().times(&Scalar::random(rng)),
    };
    assert!(!verify::<Sha256Oracle>(&params, &bad_statement, &proof));
}

#[test]
fn nizk_batch_accepts_honest_and_rejects_tampered() {
    let rng = &mut StdRng::seed_from_u64(5);
    let alpha = Scalar::random(rng);
    let params = NizkParams { x0: G1::generator().times(&alpha) };
    let mut stmts: Vec<Statement> = Vec::new();
    let mut proofs: Vec<Proof> = Vec::new();
    for _ in 0..6 {
        let w = Scalar::random(rng);
        let s = Statement { x1: G1::generator().times(&w), x2: params.x0.times(&w) };
        proofs.push(prove::<Sha256Oracle>(&params, &s, &w, rng));
        stmts.push(s);
    }
    assert!(verify_batch::<Sha256Oracle>(&params, &stmts, &proofs, rng));
    let ones: Vec<Scalar> = (0..6).map(|_| Scalar::one()).collect();
    assert!(verify_batch_with_weights::<Sha256Oracle>(&params, &stmts, &proofs, &ones));
    proofs[4].x2_prime = proofs[4].x2_prime.plus(&G1::generator());
    assert!(!verify_batch::<Sha256Oracle>(&params, &stmts, &proofs, rng));
    let empty_s: Vec<Statement> = Vec::new();
    let empty_p: Vec<Proof> = Vec::new();
    assert!(verify_batch::<Sha256Oracle>(&params, &empty_s, &empty_p, rng));
}

#[test]
fn nizk_one_bad_proof_is_caught_exactly_by_a_nonzero_weight() {
    let rng = &mut StdRng::seed_from_u64(6);
    let alpha = Scalar::random(rng);
    let params = NizkParams { x0: G1::generator().times(&alpha) };
    let mut stmts: Vec<Statement> = Vec::new();
    let mut proofs: Vec<Proof> = Vec::new();
    for _ in 0..4 {
        let w = Scalar::random(rng);
        let s = Statement { x1: G1::generator().times(&w), x2: params.x0.times(&w) };
        proofs.push(prove::<Sha256Oracle>(&params, &s, &w, rng));
        stmts.push(s);
    }
    proofs[1].w_hat = proofs[1].w_hat.add(&Scalar::from_u64(1));
    let mut gammas: Vec<Scalar> = (0..4).map(|_| Scalar::random(rng)).collect();
    assert!(!verify_batch_with_weights::<Sha256Oracle>(&params, &stmts, &proofs, &gammas));
    gammas[1] = Scalar::zero();
    assert!(verify_batch_with_weights::<Sha256Oracle>(&params, &stmts, &proofs, &gammas));
    gammas[1] = Scalar::one();
    assert!(!verify_batch_with_weights::<Sha256Oracle>(&params, &stmts, &proofs, &gammas));
}

#[test]
fn nizk_proof_bytes_roundtrip() {
    let rng = &mut StdRng::seed_from_u64(7);
    let (params, statement, w) = sample_instance(rng);
    let proof = prove::<Sha256Oracle>(&params, &statement, &w, rng);
    let buf = proof.to_compressed_bytes();
    assert_eq!(buf.len(), 128);
    let back = Proof::from_compressed_bytes(&buf[..]).unwrap();
    assert!(verify::<Sha256Oracle>(&params, &statement, &back));
    assert!(Proof::from_compressed_bytes(&buf[..127]).is_none());
    let mut bad = buf.clone();
    bad[80] &= 0x7f;
    assert!(Proof::from_compressed_bytes(&bad[..]).is_none());
}
