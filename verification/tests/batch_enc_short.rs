use ark_std::rand::rngs::StdRng;
use ark_std::rand::SeedableRng;
use batch_encryption::batch_enc_short::{
    decrypt, encrypt, pre_decrypt, pre_decrypt_checked, setup, SecretKey, SetupOutput,
};
use batch_encryption::field::Scalar;
use batch_encryption::group::{GroupElem, Gt, G1, G2};
use batch_encryption::nizk_dlog::{self, Sha512Oracle};
use batch_encryption::partial_fractions::{get_extra_index, get_omega, partial_fraction_at};

fn rng() -> StdRng {
    StdRng::seed_from_u64(0xb47c)
}

fn keys(ell: usize, rng: &mut StdRng) -> SetupOutput {
    setup(ell, rng).expect("secret hit a pole")
}

fn same_gts(a: &[Gt], b: &[Gt]) -> bool {
    a.len() == b.len() && a.iter().zip(b.iter()).all(|(x, y)| x.equals(y))
}

#[test]
fn batch_enc_short_test_omega_is_primitive_root() {
    for &n in &[1usize, 2, 4, 8] {
        let omega = get_omega(n);
        assert!(omega.pow(n as u64).equals(&Scalar::one()), "ω^n = 1 for n={n}");
        if n > 1 {
            assert!(!omega.pow((n / 2) as u64).equals(&Scalar::one()));
        }
    }
}

#[test]
fn batch_enc_short_test_extra_index_not_root_of_unity() {
    for &n in &[1usize, 2, 4, 8] {
        let gamma = get_extra_index(n);
        assert!(!gamma.equals(&Scalar::zero()));
        assert!(!gamma.pow(n as u64).equals(&Scalar::one()));
    }
}

#[test]
fn test_setup_ek_p0_t_correct() {
    let rng = &mut rng();
    let out = keys(4, rng);
    let expected = Gt::pairing(
        &G1::generator().times(&partial_fraction_at(&out.sk.x, &Scalar::zero())),
        &G2::generator(),
    );
    assert!(out.ek.p0_t.equals(&expected));
}

#[test]
fn test_setup_p2_vec_correct() {
    let rng = &mut rng();
    let ell = 4;
    let out = keys(ell, rng);
    let omega = get_omega(ell);
    let mut omega_j = Scalar::one();
    for j in 0..ell {
        let expected = G2::generator().times(&partial_fraction_at(&out.sk.x, &omega_j));
        assert!(out.dk.p2_vec[j].equals(&expected), "p2_vec[{j}] mismatch");
        omega_j = omega_j.mul(&omega);
    }
}

#[test]
fn test_setup_p0_plus_pg_correct() {
    let rng = &mut rng();
    let ell = 4;
    let out = keys(ell, rng);
    let gamma = get_extra_index(ell);
    let expected_scalar = partial_fraction_at(&out.sk.x, &Scalar::zero())
        .add(&partial_fraction_at(&out.sk.x, &gamma));
    assert!(out.dk.p0_plus_pg_2.equals(&G2::generator().times(&expected_scalar)));
}

#[test]
fn test_setup_w_vec_correct() {
    // w_{ω^j}(x) = p_{ω^j}(x)² + (1/ω^j)·p_0(x) + (1/(ω^j − γ))·p_γ(x)
    let rng = &mut rng();
    let ell = 4;
    let out = keys(ell, rng);
    let omega = get_omega(ell);
    let gamma = get_extra_index(ell);
    let x = &out.sk.x;
    let p0 = partial_fraction_at(x, &Scalar::zero());
    let pg = partial_fraction_at(x, &gamma);
    let mut omega_j = Scalar::one();
    for j in 0..ell {
        let p_oj = partial_fraction_at(x, &omega_j);
        let expected_scalar = p_oj
            .mul(&p_oj)
            .add(&omega_j.inverse().unwrap().mul(&p0))
            .add(&omega_j.sub(&gamma).inverse().unwrap().mul(&pg));
        let expected = G2::generator().times(&expected_scalar);
        assert!(out.dk.w_vec[j].equals(&expected), "w_vec[{j}] mismatch");
        omega_j = omega_j.mul(&omega);
    }
}

#[test]
fn test_setup_dk_sizes() {
    let rng = &mut rng();
    for &ell in &[1usize, 2, 4, 8] {
        let out = keys(ell, rng);
        assert_eq!(out.dk.p2_vec.len(), ell);
        assert_eq!(out.dk.w_vec.len(), ell);
    }
}

#[test]
fn test_setup_deterministic_with_same_rng() {
    let out1 = keys(4, &mut rng());
    let out2 = keys(4, &mut rng());
    assert!(out1.sk.x.equals(&out2.sk.x));
    assert!(out1.ek.p0_t.equals(&out2.ek.p0_t));
    assert!(out1.dk.p0_plus_pg_2.equals(&out2.dk.p0_plus_pg_2));
}

#[test]
fn batch_enc_short_test_encrypt_nizk_verifies() {
    let rng = &mut rng();
    let out = keys(4, rng);
    let m = Gt::random(rng);
    let ct = encrypt::<Sha512Oracle>(&out.ek, &m, rng);
    let stmt = nizk_dlog::Statement { h: ct.ct1.duplicate() };
    assert!(nizk_dlog::verify::<Sha512Oracle>(&stmt, &ct.proof));
}

#[test]
fn batch_enc_short_test_encrypt_randomized() {
    let rng = &mut rng();
    let out = keys(4, rng);
    let m = Gt::random(rng);
    let ct1 = encrypt::<Sha512Oracle>(&out.ek, &m, rng);
    let ct2 = encrypt::<Sha512Oracle>(&out.ek, &m, rng);
    assert!(!ct1.ct1.equals(&ct2.ct1), "ct1 should differ due to fresh r");
    assert!(!ct1.ct2.equals(&ct2.ct2), "ct2 should differ due to fresh r");
}

#[test]
fn batch_enc_short_test_pre_decrypt_valid() {
    let rng = &mut rng();
    let out = keys(4, rng);
    let cts: Vec<_> =
        (0..4).map(|_| encrypt::<Sha512Oracle>(&out.ek, &Gt::random(rng), rng)).collect();
    assert!(pre_decrypt::<Sha512Oracle>(&out.sk, &cts, rng).is_some());
}

#[test]
fn test_pre_decrypt_rejects_tampered_proof() {
    let rng = &mut rng();
    let out = keys(4, rng);
    let mut cts: Vec<_> =
        (0..4).map(|_| encrypt::<Sha512Oracle>(&out.ek, &Gt::random(rng), rng)).collect();
    cts[2].proof.w_hat = cts[2].proof.w_hat.add(&Scalar::from_u64(1));
    assert!(pre_decrypt::<Sha512Oracle>(&out.sk, &cts, rng).is_none());
}

#[test]
fn test_pre_decrypt_rejects_swapped_ct1() {
    // Swapping ct1 between two ciphertexts invalidates the DLOG proofs
    // (the proof is bound to ct1 via the Fiat-Shamir challenge).
    let rng = &mut rng();
    let out = keys(4, rng);
    let mut cts: Vec<_> =
        (0..4).map(|_| encrypt::<Sha512Oracle>(&out.ek, &Gt::random(rng), rng)).collect();
    let tmp = cts[0].ct1.duplicate();
    cts[0].ct1 = cts[1].ct1.duplicate();
    cts[1].ct1 = tmp;
    assert!(pre_decrypt::<Sha512Oracle>(&out.sk, &cts, rng).is_none());
}

#[test]
fn test_pre_decrypt_sbk_matches_manual_computation() {
    let rng = &mut rng();
    let ell = 4;
    let out = keys(ell, rng);
    let cts: Vec<_> =
        (0..ell).map(|_| encrypt::<Sha512Oracle>(&out.ek, &Gt::random(rng), rng)).collect();
    let sbk = pre_decrypt::<Sha512Oracle>(&out.sk, &cts, rng).unwrap();
    let omega = get_omega(ell);
    let mut expected = G1::identity();
    let mut omega_j = Scalar::one();
    for ct in &cts {
        expected = expected.plus(&ct.ct1.times(&partial_fraction_at(&out.sk.x, &omega_j)));
        omega_j = omega_j.mul(&omega);
    }
    assert!(sbk.sbk.equals(&expected));
}

#[test]
fn test_encrypt_structure() {
    // Recover m from ct2 by subtracting r·p0_T = p_0(x) · e(ct1, [1]_2).
    let rng = &mut rng();
    let out = keys(4, rng);
    let m = Gt::random(rng);
    let ct = encrypt::<Sha512Oracle>(&out.ek, &m, rng);
    let p0 = partial_fraction_at(&out.sk.x, &Scalar::zero());
    let r_p0t = Gt::pairing(&ct.ct1, &G2::generator()).times(&p0);
    assert!(ct.ct2.minus(&r_p0t).equals(&m));
}

fn e2e_test(ell: usize) {
    let rng = &mut rng();
    let out = keys(ell, rng);
    let messages: Vec<Gt> = (0..ell).map(|_| Gt::random(rng)).collect();
    let cts: Vec<_> = messages.iter().map(|m| encrypt::<Sha512Oracle>(&out.ek, m, rng)).collect();
    let sbk = pre_decrypt::<Sha512Oracle>(&out.sk, &cts, rng).unwrap();
    let decrypted = decrypt(&out.dk, &sbk, &cts);
    assert!(same_gts(&messages, &decrypted), "e2e mismatch at ell={ell}");
}

#[test]
fn batch_enc_short_test_e2e_ell_1() {
    e2e_test(1);
}

#[test]
fn batch_enc_short_test_e2e_ell_2() {
    e2e_test(2);
}

#[test]
fn batch_enc_short_test_e2e_ell_4() {
    e2e_test(4);
}

#[test]
fn batch_enc_short_test_e2e_ell_8() {
    e2e_test(8);
}

#[test]
fn batch_enc_short_test_e2e_zero_messages() {
    let rng = &mut rng();
    let out = keys(4, rng);
    let messages = vec![Gt::identity(), Gt::random(rng), Gt::identity(), Gt::random(rng)];
    let cts: Vec<_> = messages.iter().map(|m| encrypt::<Sha512Oracle>(&out.ek, m, rng)).collect();
    let sbk = pre_decrypt::<Sha512Oracle>(&out.sk, &cts, rng).unwrap();
    assert!(same_gts(&decrypt(&out.dk, &sbk, &cts), &messages));
}

#[test]
fn test_decrypt_is_deterministic_given_fixed_inputs() {
    let rng = &mut rng();
    let ell = 4;
    let out = keys(ell, rng);
    let messages: Vec<Gt> = (0..ell).map(|_| Gt::random(rng)).collect();
    let cts: Vec<_> = messages.iter().map(|m| encrypt::<Sha512Oracle>(&out.ek, m, rng)).collect();
    let sbk = pre_decrypt::<Sha512Oracle>(&out.sk, &cts, rng).unwrap();
    let first = decrypt(&out.dk, &sbk, &cts);
    let second = decrypt(&out.dk, &sbk, &cts);
    assert!(same_gts(&first, &second));
}

#[test]
fn batch_enc_short_other_window_stays_hidden() {
    // Revealing the pre-decryption key of window A does not decrypt window B.
    let rng = &mut rng();
    let out = keys(8, rng);
    let snipes_a: Vec<Gt> = (0..8).map(|_| Gt::random(rng)).collect();
    let snipes_b: Vec<Gt> = (0..8).map(|_| Gt::random(rng)).collect();
    let cts_a: Vec<_> = snipes_a.iter().map(|m| encrypt::<Sha512Oracle>(&out.ek, m, rng)).collect();
    let cts_b: Vec<_> = snipes_b.iter().map(|m| encrypt::<Sha512Oracle>(&out.ek, m, rng)).collect();
    let sbk_a = pre_decrypt::<Sha512Oracle>(&out.sk, &cts_a, rng).unwrap();
    assert!(same_gts(&decrypt(&out.dk, &sbk_a, &cts_a), &snipes_a));
    let leaked = decrypt(&out.dk, &sbk_a, &cts_b);
    for r in leaked.iter() {
        assert!(!snipes_a.iter().any(|s| s.equals(r)));
        assert!(!snipes_b.iter().any(|s| s.equals(r)));
    }
    let sbk_b = pre_decrypt::<Sha512Oracle>(&out.sk, &cts_b, rng).unwrap();
    assert!(same_gts(&decrypt(&out.dk, &sbk_b, &cts_b), &snipes_b));
}

#[test]
fn short_pre_decrypt_checked_refuses_a_secret_on_a_root_and_draws_nothing() {
    let rng = &mut rng();
    let out = keys(4, rng);
    let cts: Vec<_> =
        (0..4).map(|_| encrypt::<Sha512Oracle>(&out.ek, &Gt::random(rng), rng)).collect();
    // x = -1 makes x + ω^0 zero.
    let bad = SecretKey { x: Scalar::zero().sub(&Scalar::one()) };
    let mut before = rng.clone();
    assert!(pre_decrypt_checked::<Sha512Oracle>(&bad, &cts, rng).is_none());
    assert!(Scalar::random(rng).equals(&Scalar::random(&mut before)));
    let checked = pre_decrypt_checked::<Sha512Oracle>(&out.sk, &cts, rng).unwrap();
    let plain = pre_decrypt::<Sha512Oracle>(&out.sk, &cts, rng).unwrap();
    assert!(checked.sbk.equals(&plain.sbk));
}
