use ark_std::rand::rngs::StdRng;
use ark_std::rand::SeedableRng;
use batch_encryption::batch_enc::{
    decrypt, encrypt, pre_decrypt, pre_decrypt_checked, setup, setup_with_secret, SecretKey, SetupOutput,
};
use batch_encryption::field::Scalar;
use batch_encryption::group::{GroupElem, Gt, G1, G2};
use batch_encryption::nizk::{self, Sha256Oracle};
use batch_encryption::partial_fractions::{get_extra_index, get_omega, partial_fraction_at};

fn rng() -> StdRng {
    StdRng::seed_from_u64(0x5eed)
}

fn keys(ell: usize, rng: &mut StdRng) -> SetupOutput {
    setup(ell, rng).expect("secret hit a pole")
}

fn same_gts(a: &[Gt], b: &[Gt]) -> bool {
    a.len() == b.len() && a.iter().zip(b.iter()).all(|(x, y)| x.equals(y))
}

#[test]
fn batch_enc_test_omega_is_primitive_root() {
    for &n in &[1usize, 2, 4, 8] {
        let omega = get_omega(n);
        assert!(omega.pow(n as u64).equals(&Scalar::one()), "ω^n = 1 for n={n}");
        if n > 1 {
            assert!(!omega.pow((n / 2) as u64).equals(&Scalar::one()), "ω^{{n/2}} ≠ 1 for n={n}");
        }
    }
}

#[test]
fn batch_enc_test_extra_index_not_root_of_unity() {
    for &n in &[1usize, 2, 4, 8] {
        let gamma = get_extra_index(n);
        assert!(!gamma.equals(&Scalar::zero()));
        assert!(!gamma.pow(n as u64).equals(&Scalar::one()), "γ^n ≠ 1 for n={n}");
    }
}

#[test]
fn test_partial_fraction_at() {
    let rng = &mut rng();
    let x = Scalar::random(rng);
    let omega = get_omega(4);
    let mut omega_j = Scalar::one();
    for _ in 0..4 {
        let pf = partial_fraction_at(&x, &omega_j);
        assert!(pf.mul(&x.add(&omega_j)).equals(&Scalar::one()));
        omega_j = omega_j.mul(&omega);
    }
    let pf0 = partial_fraction_at(&x, &Scalar::zero());
    assert!(pf0.mul(&x).equals(&Scalar::one()));
}

#[test]
fn test_setup_dk_sum() {
    let rng = &mut rng();
    let out = keys(4, rng);
    assert_eq!(out.dk.dk.len(), 4);
    let mut sum = G2::identity();
    for d in out.dk.dk.iter() {
        sum = sum.plus(d);
    }
    assert!(sum.equals(&out.dk.dk_sum));
}

#[test]
fn test_setup_ek_sum_correct() {
    let rng = &mut rng();
    let ell = 4;
    let out = keys(ell, rng);
    let omega = get_omega(ell);
    let gamma = get_extra_index(ell);
    let x = &out.sk.x;
    let g = G1::generator();
    let mut expected = G1::identity();
    expected = expected.plus(&g.times(&partial_fraction_at(x, &Scalar::zero())));
    expected = expected.plus(&g.times(&partial_fraction_at(x, &gamma)));
    let mut omega_j = Scalar::one();
    for _ in 0..ell {
        expected = expected.plus(&g.times(&partial_fraction_at(x, &omega_j)));
        omega_j = omega_j.mul(&omega);
    }
    assert!(expected.equals(&out.ek.ek_sum));
}

#[test]
fn test_setup_p0_t_correct() {
    let rng = &mut rng();
    let out = keys(4, rng);
    let expected = Gt::pairing(
        &G1::generator().times(&partial_fraction_at(&out.sk.x, &Scalar::zero())),
        &G2::generator(),
    );
    assert!(out.ek.p0_t.equals(&expected));
}

#[test]
fn test_setup_dk_correct() {
    let rng = &mut rng();
    let ell = 4;
    let out = keys(ell, rng);
    let omega = get_omega(ell);
    let mut omega_j = Scalar::one();
    for j in 0..ell {
        let expected = G2::generator().times(&partial_fraction_at(&out.sk.x, &omega_j));
        assert!(out.dk.dk[j].equals(&expected), "dk[{j}] mismatch");
        omega_j = omega_j.mul(&omega);
    }
}

#[test]
fn test_setup_deterministic() {
    let out1 = keys(4, &mut rng());
    let out2 = keys(4, &mut rng());
    assert!(out1.ek.ek_sum.equals(&out2.ek.ek_sum));
    assert!(out1.sk.x.equals(&out2.sk.x));
}

#[test]
fn batch_enc_test_encrypt_nizk_verifies() {
    let rng = &mut rng();
    let out = keys(4, rng);
    let m = Gt::random(rng);
    let ct = encrypt::<Sha256Oracle>(&out.ek, &m, rng);
    let params = nizk::NizkParams { x0: out.ek.ek_sum.duplicate() };
    let stmt = nizk::Statement { x1: ct.ct1.duplicate(), x2: ct.ct2.duplicate() };
    assert!(nizk::verify::<Sha256Oracle>(&params, &stmt, &ct.proof));
}

#[test]
fn batch_enc_test_encrypt_randomized() {
    let rng = &mut rng();
    let out = keys(4, rng);
    let m = Gt::random(rng);
    let ct1 = encrypt::<Sha256Oracle>(&out.ek, &m, rng);
    let ct2 = encrypt::<Sha256Oracle>(&out.ek, &m, rng);
    assert!(!ct1.ct1.equals(&ct2.ct1));
    assert!(!ct1.ct3.equals(&ct2.ct3));
}

#[test]
fn batch_enc_test_pre_decrypt_valid() {
    let rng = &mut rng();
    let out = keys(4, rng);
    let cts: Vec<_> =
        (0..4).map(|_| encrypt::<Sha256Oracle>(&out.ek, &Gt::random(rng), rng)).collect();
    assert!(pre_decrypt::<Sha256Oracle>(&out.sk, &out.ek, &cts, rng).is_some());
}

#[test]
fn test_pre_decrypt_rejects_tampered() {
    let rng = &mut rng();
    let out = keys(4, rng);
    let mut cts: Vec<_> =
        (0..4).map(|_| encrypt::<Sha256Oracle>(&out.ek, &Gt::random(rng), rng)).collect();
    cts[0].proof.w_hat = cts[0].proof.w_hat.add(&Scalar::from_u64(1));
    assert!(pre_decrypt::<Sha256Oracle>(&out.sk, &out.ek, &cts, rng).is_none());
}

fn e2e_test(ell: usize) {
    let rng = &mut rng();
    let out = keys(ell, rng);
    let messages: Vec<Gt> = (0..ell).map(|_| Gt::random(rng)).collect();
    let cts: Vec<_> = messages.iter().map(|m| encrypt::<Sha256Oracle>(&out.ek, m, rng)).collect();
    let sbk = pre_decrypt::<Sha256Oracle>(&out.sk, &out.ek, &cts, rng).unwrap();
    let decrypted = decrypt(&out.dk, &sbk, &cts);
    assert!(same_gts(&messages, &decrypted), "e2e mismatch at ell={ell}");
}

#[test]
fn batch_enc_test_e2e_ell_1() {
    e2e_test(1);
}

#[test]
fn batch_enc_test_e2e_ell_2() {
    e2e_test(2);
}

#[test]
fn batch_enc_test_e2e_ell_4() {
    e2e_test(4);
}

#[test]
fn batch_enc_test_e2e_ell_8() {
    e2e_test(8);
}

#[test]
fn batch_enc_test_e2e_zero_messages() {
    let rng = &mut rng();
    let out = keys(4, rng);
    let messages = vec![Gt::identity(), Gt::random(rng), Gt::identity(), Gt::random(rng)];
    let cts: Vec<_> = messages.iter().map(|m| encrypt::<Sha256Oracle>(&out.ek, m, rng)).collect();
    let sbk = pre_decrypt::<Sha256Oracle>(&out.sk, &out.ek, &cts, rng).unwrap();
    assert!(same_gts(&decrypt(&out.dk, &sbk, &cts), &messages));
}

#[test]
fn batch_enc_setup_rejects_pole_secrets() {
    // x = 0 is the pole of p_0, x = −2 that of p_γ, x = −1 that of p_{ω^0}.
    assert!(setup_with_secret(4, Scalar::zero()).is_none());
    assert!(setup_with_secret(4, Scalar::zero().sub(&Scalar::from_u64(2))).is_none());
    assert!(setup_with_secret(4, Scalar::zero().sub(&Scalar::one())).is_none());
    assert!(setup_with_secret(4, Scalar::from_u64(5)).is_some());
}

#[test]
fn batch_enc_decrypt_with_other_batch_key_fails() {
    let rng = &mut rng();
    let out = keys(4, rng);
    let msgs_a: Vec<Gt> = (0..4).map(|_| Gt::random(rng)).collect();
    let msgs_b: Vec<Gt> = (0..4).map(|_| Gt::random(rng)).collect();
    let cts_a: Vec<_> = msgs_a.iter().map(|m| encrypt::<Sha256Oracle>(&out.ek, m, rng)).collect();
    let cts_b: Vec<_> = msgs_b.iter().map(|m| encrypt::<Sha256Oracle>(&out.ek, m, rng)).collect();
    let sbk_a = pre_decrypt::<Sha256Oracle>(&out.sk, &out.ek, &cts_a, rng).unwrap();
    let wrong = decrypt(&out.dk, &sbk_a, &cts_b);
    for (w, m) in wrong.iter().zip(msgs_b.iter()) {
        assert!(!w.equals(m));
    }
}

#[test]
fn batch_enc_partial_fraction_identity() {
    // p_a(x) − p_b(x) = (b − a) · p_a(x) · p_b(x)
    let rng = &mut rng();
    let x = Scalar::random(rng);
    let omega = get_omega(8);
    let a = omega.pow(3);
    let b = Scalar::from_u64(2);
    let pa = partial_fraction_at(&x, &a);
    let pb = partial_fraction_at(&x, &b);
    assert!(pa.sub(&pb).equals(&b.sub(&a).mul(&pa).mul(&pb)));
}

#[test]
fn pre_decrypt_checked_refuses_a_secret_on_a_root_and_draws_nothing() {
    let rng = &mut rng();
    let out = keys(4, rng);
    let cts: Vec<_> =
        (0..4).map(|_| encrypt::<Sha256Oracle>(&out.ek, &Gt::random(rng), rng)).collect();
    // x = -ω makes x + ω^1 zero.
    let bad = SecretKey { x: Scalar::zero().sub(&get_omega(4)) };
    let mut before = rng.clone();
    assert!(pre_decrypt_checked::<Sha256Oracle>(&bad, &out.ek, &cts, rng).is_none());
    assert!(Scalar::random(rng).equals(&Scalar::random(&mut before)));
    // With the keys of setup it agrees with pre_decrypt.
    let checked = pre_decrypt_checked::<Sha256Oracle>(&out.sk, &out.ek, &cts, rng).unwrap();
    let plain = pre_decrypt::<Sha256Oracle>(&out.sk, &out.ek, &cts, rng).unwrap();
    assert!(checked.sbk.equals(&plain.sbk));
}
