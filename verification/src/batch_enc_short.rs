//! Construction 5: batch encryption with shorter ciphertexts.
//!
//! The secret is `x` in Fr; batch indices are the `ell`-th roots of unity
//! `ω^j`, `p_i(x) = 1/(x + i)` and `γ = 2` is the extra index. A ciphertext
//! is one element of G1 and one of GT, with a proof of knowledge of the
//! discrete logarithm of its G1 part.

use vstd::prelude::*;
use vstd::arithmetic::power::{pow, lemma_pow0};
use vstd::arithmetic::power2::{pow2, lemma_pow2_pos};
use crate::field::{Scalar, is_drawn, modulus, md, inv, lemma_md_add, lemma_md_small, lemma_cong_add,
    lemma_cong_sub, lemma_cong_mul, lemma_inv_md, lemma_diff_nonzero, invertible,
    lemma_invertible_nonzero};
use crate::group::{G1, G2, Gt, GroupElem, pairing_sum};
use crate::fft::{is_pow2, dlogs, circulant_mul};

use crate::partial_fractions::{root_of_unity, root_pow, pf, valid_secret, off_roots, secret_is_valid,
    lemma_root_pow_step, lemma_root_pow_not_two, conv, lemma_conv_circulant, kernel_transform,
    get_omega, get_extra_index, partial_fraction_at, lemma_extra_index_pow2, avoids_roots};
use crate::nizk_dlog;
use crate::batch_enc_short_correctness::{honest_batch, lemma_dec_pad_honest};

verus! {

/// Public encryption key: `p0_t = [p_0(x)]_T`, kept in GT so that
/// encryption needs no pairing.
pub struct EncryptionKey {
    pub p0_t: Gt,
}

/// Secret key: `x` in Fr.
pub struct SecretKey {
    pub x: Scalar,
}

/// Public decryption key: `p2_vec[j] = [p_{ω^j}(x)]_2`,
/// `w_vec[j] = [w_{ω^j}(x)]_2` and `p0_plus_pg_2 = [p_0(x) + p_γ(x)]_2`.
pub struct DecryptionKey {
    pub p2_vec: Vec<G2>,
    pub w_vec: Vec<G2>,
    pub p0_plus_pg_2: G2,
}

/// A ciphertext `ct1 = [r]_1`, `ct2 = r · [p_0(x)]_T + m`, with a proof of
/// knowledge of `r`.
pub struct Ciphertext {
    pub ct1: G1,
    pub ct2: Gt,
    pub proof: nizk_dlog::Proof,
}

/// Pre-decryption key: `sbk = Σ_j p_{ω^j}(x) · ct_j[1]` in G1.
pub struct PreDecryptionKey {
    pub sbk: G1,
}

/// The keys made by [`setup`].
pub struct SetupOutput {
    pub ek: EncryptionKey,
    pub sk: SecretKey,
    pub dk: DecryptionKey,
}

/// `w_{ω^j}(x) = p_{ω^j}(x)² + p_0(x)/ω^j + p_γ(x)/(ω^j − γ)`.
pub open spec fn w_scalar(x: int, n: nat, j: int) -> int {
    let u = root_pow(n, j as nat);
    pf(x, u) * pf(x, u) + inv(u) * pf(x, 0) + inv(u - 2) * pf(x, 2)
}

/// The keys that setup makes from the secret `x` for batch size `n`.
pub open spec fn keys_from_secret(out: SetupOutput, x: int, n: nat) -> bool {
    &&& out.sk.x@ == x
    &&& out.ek.p0_t.dlog() == pf(x, 0)
    &&& out.dk.p0_plus_pg_2.dlog() == md(pf(x, 0) + pf(x, 2))
    &&& out.dk.p2_vec@.len() == n
    &&& out.dk.w_vec@.len() == n
    &&& forall|j: int|
        0 <= j < n ==> #[trigger] out.dk.p2_vec@[j].dlog() == pf(x, root_pow(n, j as nat))
    &&& forall|j: int| 0 <= j < n ==> #[trigger] out.dk.w_vec@[j].dlog() == md(w_scalar(x, n, j))
}

/// Setup from a given secret `x`: `None` exactly when `x` hits a pole of the
/// scheme's partial fractions (then no keys can be made from it).
pub fn setup_with_secret(ell: usize, x: Scalar) -> (out: Option<SetupOutput>)
    requires
        is_pow2(ell as nat),
        ell <= pow2(32),
    ensures
        out is Some <==> valid_secret(x@ as int, ell as nat),
        out matches Some(o) ==> keys_from_secret(o, x@ as int, ell as nat),
{
    let omega = get_omega(ell);
    proof {
        lemma_extra_index_pow2(ell as nat);
    }
    let gamma = get_extra_index(ell);
    if !secret_is_valid(&x, ell, &omega, &gamma) {
        return None;
    }
    let ghost xv = x@ as int;
    let ghost n = ell as nat;
    let zero = Scalar::zero();
    proof {
        use_type_invariant(&x);
        lemma_invertible_nonzero(xv);
        lemma_invertible_nonzero(xv + 2);
        lemma_md_small(xv);
        lemma_md_small(0);
        lemma_md_small(1);
        lemma_md_small(2);
    }
    let p0_scalar = partial_fraction_at(&x, &zero);
    let pgamma_scalar = partial_fraction_at(&x, &gamma);
    proof {
        use_type_invariant(&p0_scalar);
        use_type_invariant(&pgamma_scalar);
    }
    let g2 = G2::generator();
    let p0_t = Gt::pairing(&G1::generator().times(&p0_scalar), &g2);
    let p0_plus_pg_2 = g2.times(&p0_scalar.add(&pgamma_scalar));
    proof {
        lemma_md_small(p0_scalar@ as int);
        lemma_md_small(p0_scalar@ + pgamma_scalar@ as int);
    }
    let mut p2_vec: Vec<G2> = Vec::new();
    let mut w_vec: Vec<G2> = Vec::new();
    let mut omega_j = Scalar::one();
    let mut j: usize = 0;
    proof {
        lemma_pow0(omega@ as int);
    }
    while j < ell
        invariant
            0 <= j <= ell,
            n == ell,
            xv == x@,
            x@ < modulus(),
            valid_secret(xv, n),
            omega@ == root_of_unity(n),
            md(pow(omega@ as int, n)) == 1,
            md(pow(gamma@ as int, n)) != 1,
            gamma@ == 2,
            p0_scalar@ == pf(xv, 0),
            pgamma_scalar@ == pf(xv, 2),
            omega_j@ == root_pow(n, j as nat),
            g2.dlog() == 1,
            p2_vec@.len() == j,
            w_vec@.len() == j,
            forall|i: int| 0 <= i < j ==> #[trigger] p2_vec@[i].dlog() == pf(xv, root_pow(n, i as nat)),
            forall|i: int| 0 <= i < j ==> #[trigger] w_vec@[i].dlog() == md(w_scalar(xv, n, i)),
        decreases ell - j,
    {
        let ghost u = omega_j@ as int;
        proof {
            lemma_invertible_nonzero(xv + root_pow(n, j as nat));
            use_type_invariant(&omega_j);
            lemma_root_pow_step(n, j as nat);
            lemma_root_pow_not_two(n, j as nat);
            lemma_diff_nonzero(u, 2);
            lemma_md_small(u);
            if u == 0 {
                lemma_root_pow_zero(n, j as nat);
            }
        }
        let p_oj = partial_fraction_at(&x, &omega_j);
        let p_oj_2 = g2.times(&p_oj);
        // q_{ω^j}(x) = p_{ω^j}(x)² = 1/(x + ω^j)²
        let q_oj = p_oj.mul(&p_oj);
        let omega_j_inv = omega_j.inverse().expect("ω^j ≠ 0");
        let oj_minus_gamma_inv = omega_j.sub(&gamma).inverse().expect("ω^j − γ ≠ 0");
        proof {
            use_type_invariant(&p_oj);
            use_type_invariant(&omega_j_inv);
            use_type_invariant(&oj_minus_gamma_inv);
            lemma_inv_md(u, omega_j_inv@ as int);
            lemma_inv_md(u - 2, oj_minus_gamma_inv@ as int);
        }
        let w_oj_scalar = q_oj.add(&omega_j_inv.mul(&p0_scalar)).add(
            &oj_minus_gamma_inv.mul(&pgamma_scalar),
        );
        let w_oj_2 = g2.times(&w_oj_scalar);
        proof {
            lemma_md_small(p_oj@ as int);
            let pu = p_oj@ as int;
            let a = pu * pu;
            let b = omega_j_inv@ * p0_scalar@ as int;
            let c = oj_minus_gamma_inv@ * pgamma_scalar@ as int;
            lemma_md_small(a);
            lemma_md_small(b);
            lemma_md_small(c);
            lemma_cong_add(a, b, md(a), md(b));
            lemma_md_small(md(a) + md(b));
            lemma_cong_add(a + b, c, md(md(a) + md(b)), md(c));
            lemma_md_small(w_oj_scalar@ as int);
        }
        p2_vec.push(p_oj_2);
        w_vec.push(w_oj_2);
        omega_j = omega_j.mul(&omega);
        j += 1;
    }
    let ek = EncryptionKey { p0_t };
    let sk = SecretKey { x };
    let dk = DecryptionKey { p2_vec, w_vec, p0_plus_pg_2 };
    Some(SetupOutput { ek, sk, dk })
}

/// The powers of a root of unity are never zero.
proof fn lemma_root_pow_zero(n: nat, j: nat)
    requires
        md(pow(root_of_unity(n) as int, n)) == 1,
        n > 0,
    ensures
        root_pow(n, j) != 0,
{
    let w = root_of_unity(n) as int;
    if root_pow(n, j) == 0 {
        vstd::arithmetic::power::lemma_pow_multiplies(w, j, n);
        vstd::arithmetic::power::lemma_pow_multiplies(w, n, j);
        assert(j * n == n * j) by (nonlinear_arith);
        vstd::arithmetic::power::lemma_pow_mod_noop(pow(w, j), n, modulus() as int);
        vstd::arithmetic::power::lemma_pow_mod_noop(pow(w, n), j, modulus() as int);
        vstd::arithmetic::power::lemma0_pow(n);
        vstd::arithmetic::power::lemma1_pow(j);
        lemma_md_small(0);
        lemma_md_small(1);
        assert(md(pow(pow(w, j), n)) == md(pow(0, n)));
        assert(md(pow(pow(w, n), j)) == md(pow(1, j)));
        assert(false);
    }
}

/// Setup(1^λ, 1^ell): samples the secret `x` and makes the keys for batch
/// size `ell` (a power of two). `None` when the sampled `x` hits one of the
/// `ell + 2` poles of the scheme (probability about `ell / r`). Whether that
/// happens rests on the draw, so the contract says what holds of every
/// outcome; `setup_with_secret` states exactly when a given secret succeeds.
pub fn setup(ell: usize, rng: &mut ark_std::rand::rngs::StdRng) -> (out: Option<SetupOutput>)
    requires
        is_pow2(ell as nat),
        ell <= pow2(32),
    ensures
        out matches Some(o) ==> valid_secret(o.sk.x@ as int, ell as nat) && keys_from_secret(
            o,
            o.sk.x@ as int,
            ell as nat,
        ),
        exists|x: Scalar|
            #![trigger is_drawn(x)]
            is_drawn(x) && (out is Some <==> valid_secret(x@ as int, ell as nat)) && (out matches Some(o)
                ==> o.sk.x@ == x@ && keys_from_secret(o, x@ as int, ell as nat)),
{
    let draw = Scalar::random;
    let x = draw(rng);
    let out = setup_with_secret(ell, x);
    proof {
        assert(is_drawn(x));
    }
    out
}

/// What an honest encryption of `m` under `ek` is, with `r = dlog(ct1)` its
/// randomness: `ct2 = r·p0_t + m` and an honest proof of knowledge of `r`.
pub open spec fn honest_ciphertext<H: nizk_dlog::TranscriptOracle>(
    ek: EncryptionKey,
    m: int,
    ct: Ciphertext,
) -> bool {
    &&& ct.ct2.dlog() == md(ct.ct1.dlog() * ek.p0_t.dlog() + m)
    &&& nizk_dlog::honest_proof::<H>(ct.ct1.dlog(), ct.ct1.dlog(), ct.proof@)
}

/// Enc(ek, m): encrypts a message `m` in GT with fresh randomness `r`:
/// `ct1 = [r]_1`, `ct2 = r·[p_0(x)]_T + m`, and a proof of knowledge of `r`.
pub fn encrypt<H: nizk_dlog::TranscriptOracle>(
    ek: &EncryptionKey,
    m: &Gt,
    rng: &mut ark_std::rand::rngs::StdRng,
) -> (ct: Ciphertext)
    ensures
        honest_ciphertext::<H>(*ek, m.dlog(), ct),
{
    let r = Scalar::random(rng);
    let ct1 = G1::generator().times(&r);
    let ct2 = ek.p0_t.times(&r).plus(m);
    let statement = nizk_dlog::Statement { h: ct1.duplicate() };
    let proof = nizk_dlog::prove::<H>(&statement, &r, rng);
    proof {
        lemma_md_small(r@ as int);
        assert(ek.p0_t.dlog() * r@ == r@ * ek.p0_t.dlog()) by (nonlinear_arith);
        lemma_md_add(r@ * ek.p0_t.dlog(), m.dlog());
        lemma_md_small(r@ * ek.p0_t.dlog());
        m.lemma_dlog_bound();
        lemma_md_small(m.dlog());
    }
    Ciphertext { ct1, ct2, proof }
}

/// The discrete logarithms of the first components of a batch.
pub open spec fn ct1_dlogs(cts: Seq<Ciphertext>) -> Seq<int> {
    cts.map_values(|ct: Ciphertext| ct.ct1.dlog())
}

/// The NIZK statements `ct[1]` of a batch of ciphertexts.
pub open spec fn ct_statements(cts: Seq<Ciphertext>) -> Seq<int> {
    ct1_dlogs(cts)
}

/// The NIZK proofs of a batch of ciphertexts.
pub open spec fn ct_proofs(cts: Seq<Ciphertext>) -> Seq<(int, int)> {
    cts.map_values(|ct: Ciphertext| ct.proof@)
}

/// `Σ_{j<k} p_{ω^j}(x) · dlog(ct_j[1])`.
pub open spec fn sbk_sum(x: int, cts: Seq<Ciphertext>, n: nat, k: int) -> int
    decreases k,
{
    if k <= 0 {
        0
    } else {
        sbk_sum(x, cts, n, k - 1) + cts[k - 1].ct1.dlog() * pf(x, root_pow(n, (k - 1) as nat))
    }
}

/// PreDec(sk, cts): batch-verifies the NIZK proofs and computes the
/// pre-decryption key `sbk = Σ_j p_{ω^j}(x) · ct_j[1]`. Returns `None` when
/// the batch verification rejects; a batch of proofs that each verify is
/// never rejected. The secret must avoid the roots of unity (the keys of
/// [`setup`] do); [`pre_decrypt_checked`] tests that first.
/// The proof check runs on weights drawn from `rng`, which rest on the
/// generator's state: the clause that some weights give the outcome holds of
/// every outcome (all-zero weights pass any batch) and does not pin it down.
pub fn pre_decrypt<H: nizk_dlog::TranscriptOracle>(
    sk: &SecretKey,
    cts: &[Ciphertext],
    rng: &mut ark_std::rand::rngs::StdRng,
) -> (r: Option<PreDecryptionKey>)
    requires
        is_pow2(cts@.len()),
        cts@.len() <= pow2(32),
        off_roots(sk.x@ as int, cts@.len()),
    ensures
        nizk_dlog::all_accept::<H>(ct_statements(cts@), ct_proofs(cts@)) ==> r is Some,
        exists|gs: Seq<int>|
            gs.len() == cts@.len() && (r is Some <==> nizk_dlog::batch_accepts::<H>(
                ct_statements(cts@),
                ct_proofs(cts@),
                gs,
            )),
        cts@.len() > 0 ==> nizk_dlog::drawn_batch_decides::<H>(
            ct_statements(cts@),
            ct_proofs(cts@),
            r is Some,
        ),
        r matches Some(k) ==> k.sbk.dlog() == md(
            sbk_sum(sk.x@ as int, cts@, cts@.len(), cts@.len() as int),
        ),
{
    let ell = cts.len();
    let omega = get_omega(ell);
    // 1. Batch-verify all NIZK proofs.
    let mut statements: Vec<nizk_dlog::Statement> = Vec::new();
    let mut proofs: Vec<nizk_dlog::Proof> = Vec::new();
    let mut i: usize = 0;
    while i < ell
        invariant
            0 <= i <= ell,
            ell == cts@.len(),
            statements@.len() == i,
            proofs@.len() == i,
            forall|k: int| 0 <= k < i ==> #[trigger] statements@[k]@ == ct_statements(cts@)[k],
            forall|k: int| 0 <= k < i ==> #[trigger] proofs@[k]@ == ct_proofs(cts@)[k],
        decreases ell - i,
    {
        let ct = &cts[i];
        statements.push(nizk_dlog::Statement { h: ct.ct1.duplicate() });
        proofs.push(ct.proof.duplicate());
        i += 1;
    }
    proof {
        assert(nizk_dlog::statement_views(statements@) =~= ct_statements(cts@));
        assert(nizk_dlog::proof_views(proofs@) =~= ct_proofs(cts@));
    }
    if !nizk_dlog::verify_batch::<H>(statements.as_slice(), proofs.as_slice(), rng) {
        return None;
    }
    // 2. sbk = Σ_j p_{ω^j}(sk) · ct_j[1]
    let ghost x = sk.x@ as int;
    let ghost n = ell as nat;
    let mut sbk = G1::identity();
    let mut omega_j = Scalar::one();
    let mut j: usize = 0;
    proof {
        lemma_md_small(0);
        lemma_md_small(1);
        lemma_pow0(omega@ as int);
    }
    while j < ell
        invariant
            0 <= j <= ell,
            ell == cts@.len(),
            n == ell,
            x == sk.x@,
            off_roots(x, n),
            omega@ == root_of_unity(n),
            omega_j@ == root_pow(n, j as nat),
            sbk.dlog() == md(sbk_sum(x, cts@, n, j as int)),
        decreases ell - j,
    {
        proof {
            assert(md(x + root_pow(n, j as nat)) != 0);
            lemma_root_pow_step(n, j as nat);
        }
        let p = partial_fraction_at(&sk.x, &omega_j);
        let term = cts[j].ct1.times(&p);
        proof {
            lemma_md_add(sbk_sum(x, cts@, n, j as int), cts@[j as int].ct1.dlog() * p@);
            lemma_md_small(sbk_sum(x, cts@, n, j as int));
            lemma_md_small(cts@[j as int].ct1.dlog() * p@);
        }
        sbk = sbk.plus(&term);
        omega_j = omega_j.mul(&omega);
        j += 1;
    }
    Some(PreDecryptionKey { sbk })
}

/// PreDec with the secret tested first: `None`, with nothing drawn from
/// `rng`, when `x + ω^j` is zero for some `j` (where [`pre_decrypt`] cannot
/// run); otherwise what [`pre_decrypt`] gives.
pub fn pre_decrypt_checked<H: nizk_dlog::TranscriptOracle>(
    sk: &SecretKey,
    cts: &[Ciphertext],
    rng: &mut ark_std::rand::rngs::StdRng,
) -> (r: Option<PreDecryptionKey>)
    requires
        is_pow2(cts@.len()),
        cts@.len() <= pow2(32),
    ensures
        !off_roots(sk.x@ as int, cts@.len()) ==> r is None && *final(rng) == *old(rng),
        off_roots(sk.x@ as int, cts@.len()) && nizk_dlog::all_accept::<H>(
            ct_statements(cts@),
            ct_proofs(cts@),
        ) ==> r is Some,
        off_roots(sk.x@ as int, cts@.len()) ==> exists|gs: Seq<int>|
            gs.len() == cts@.len() && (r is Some <==> nizk_dlog::batch_accepts::<H>(
                ct_statements(cts@),
                ct_proofs(cts@),
                gs,
            )),
        off_roots(sk.x@ as int, cts@.len()) && cts@.len() > 0 ==> nizk_dlog::drawn_batch_decides::<H>(
            ct_statements(cts@),
            ct_proofs(cts@),
            r is Some,
        ),
        r matches Some(k) ==> k.sbk.dlog() == md(
            sbk_sum(sk.x@ as int, cts@, cts@.len(), cts@.len() as int),
        ),
{
    let omega = get_omega(cts.len());
    if !avoids_roots(&sk.x, cts.len(), &omega) {
        return None;
    }
    pre_decrypt::<H>(sk, cts, rng)
}

/// The discrete logarithms of `e(ct_k[1], p2_k)`.
pub open spec fn pair_dlogs(cts: Seq<Ciphertext>, p2: Seq<G2>) -> Seq<int> {
    Seq::new(cts.len(), |k: int| md(cts[k].ct1.dlog() * p2[k].dlog()))
}

/// The one-time pad that decryption removes from `ct_j[2]`: with
/// `u = ω^j`, `s2 = u/γ` and `s1 = s2·(u − γ)`, it is
/// `e(ct_j[1], s2·[p_0 + p_γ]_2 − s1·w_j) + e(sbk + (M·ct[1])_j, s1·p2_j) − s1·(M·tm)_j`
/// with `tm_k = e(ct_k[1], p2_k)`.
pub open spec fn dec_pad(dk: DecryptionKey, sbk: int, cts: Seq<Ciphertext>, j: int) -> int {
    let n = cts.len();
    let u = root_pow(n, j as nat);
    let s2 = u * inv(2);
    let s1 = s2 * (u - 2);
    cts[j].ct1.dlog() * (dk.p0_plus_pg_2.dlog() * s2 - dk.w_vec@[j].dlog() * s1) + (sbk + conv(
        ct1_dlogs(cts),
        n,
        j,
    )) * (dk.p2_vec@[j].dlog() * s1) - conv(pair_dlogs(cts, dk.p2_vec@), n, j) * s1
}

/// The pad that the decryption loop computes step by step, each step reduced
/// modulo r, is congruent to [`dec_pad`].
proof fn lemma_dec_pad_congruent(
    dk: DecryptionKey,
    sbk: int,
    cts: Seq<Ciphertext>,
    j: int,
    s2e: int,
    s1e: int,
    g1s: Seq<G1>,
    g2s: Seq<G2>,
    rv: int,
)
    requires
        0 <= j < cts.len(),
        dk.p2_vec@.len() == cts.len(),
        dk.w_vec@.len() == cts.len(),
        s2e == md(root_pow(cts.len(), j as nat) * inv(2)),
        s1e == md(s2e * md(root_pow(cts.len(), j as nat) - 2)),
        g1s.len() == 2,
        g2s.len() == 2,
        g1s[0].dlog() == cts[j].ct1.dlog(),
        g1s[1].dlog() == md(sbk + conv(ct1_dlogs(cts), cts.len(), j)),
        g2s[0].dlog() == md(md(dk.p0_plus_pg_2.dlog() * s2e) - md(dk.w_vec@[j].dlog() * s1e)),
        g2s[1].dlog() == md(dk.p2_vec@[j].dlog() * s1e),
        rv == md(md(pairing_sum(g1s, g2s, 2)) - md(
            conv(pair_dlogs(cts, dk.p2_vec@), cts.len(), j) * s1e,
        )),
    ensures
        md(rv) == md(dec_pad(dk, sbk, cts, j)),
{
    let n = cts.len();
    let u = root_pow(n, j as nat);
    let c1 = cts[j].ct1.dlog();
    let pp = dk.p0_plus_pg_2.dlog();
    let w = dk.w_vec@[j].dlog();
    let p2 = dk.p2_vec@[j].dlog();
    let s2 = u * inv(2);
    let s1 = s2 * (u - 2);
    let cv1 = conv(ct1_dlogs(cts), n, j);
    let cvt = conv(pair_dlogs(cts, dk.p2_vec@), n, j);
    lemma_md_small(s2);
    lemma_md_small(u - 2);
    lemma_cong_mul(s2, u - 2, s2e, md(u - 2));
    lemma_cong_mul(pp, s2, pp, s2e);
    lemma_cong_mul(w, s1, w, s1e);
    lemma_md_small(pp * s2e);
    lemma_md_small(w * s1e);
    lemma_cong_sub(pp * s2, w * s1, md(pp * s2e), md(w * s1e));
    lemma_md_small(md(pp * s2e) - md(w * s1e));
    lemma_cong_mul(p2, s1, p2, s1e);
    lemma_md_small(p2 * s1e);
    lemma_md_small(sbk + cv1);
    lemma_md_small(c1);
    assert(pairing_sum(g1s, g2s, 2) == g1s[0].dlog() * g2s[0].dlog() + g1s[1].dlog()
        * g2s[1].dlog()) by {
        assert(pairing_sum(g1s, g2s, 0) == 0);
        assert(pairing_sum(g1s, g2s, 1) == pairing_sum(g1s, g2s, 0) + g1s[0].dlog() * g2s[0].dlog());
        assert(pairing_sum(g1s, g2s, 2) == pairing_sum(g1s, g2s, 1) + g1s[1].dlog() * g2s[1].dlog());
    }
    let t0 = c1 * (pp * s2 - w * s1);
    let t1 = (sbk + cv1) * (p2 * s1);
    lemma_cong_mul(c1, pp * s2 - w * s1, c1, g2s[0].dlog());
    lemma_cong_mul(sbk + cv1, p2 * s1, g1s[1].dlog(), g2s[1].dlog());
    lemma_cong_add(t0, t1, c1 * g2s[0].dlog(), g1s[1].dlog() * g2s[1].dlog());
    let ps = pairing_sum(g1s, g2s, 2);
    lemma_md_small(ps);
    lemma_cong_mul(cvt, s1, cvt, s1e);
    lemma_md_small(cvt * s1e);
    lemma_cong_sub(t0 + t1, cvt * s1, md(ps), md(cvt * s1e));
    lemma_md_small(md(ps) - md(cvt * s1e));
}

/// Dec(dk, sbk, cts): batch-decrypts all `ell` ciphertexts, removing from
/// each `ct_j[2]` its pad, computed with two FFT convolutions.
pub fn decrypt(dk: &DecryptionKey, sbk: &PreDecryptionKey, cts: &[Ciphertext]) -> (out: Vec<Gt>)
    requires
        dk.p2_vec@.len() == cts@.len(),
        dk.w_vec@.len() == cts@.len(),
        is_pow2(cts@.len()),
        cts@.len() <= pow2(32),
    ensures
        out@.len() == cts@.len(),
        forall|j: int|
            0 <= j < cts@.len() ==> #[trigger] out@[j].dlog() == md(
                cts@[j].ct2.dlog() - dec_pad(*dk, sbk.sbk.dlog(), cts@, j),
            ),
        forall|x: int, j: int|
            #![trigger honest_batch(*dk, sbk.sbk.dlog(), cts@, x), out@[j]]
            honest_batch(*dk, sbk.sbk.dlog(), cts@, x) && 0 <= j < cts@.len() ==> out@[j].dlog() == md(
                cts@[j].ct2.dlog() - cts@[j].ct1.dlog() * pf(x, 0),
            ),
{
    let ell = cts.len();
    let ghost n = ell as nat;
    let omega = get_omega(ell);
    proof {
        lemma_extra_index_pow2(ell as nat);
    }
    let gamma = get_extra_index(ell);
    let gamma_inv = gamma.inverse().expect("gamma must be invertible");
    proof {
        use_type_invariant(&gamma_inv);
        lemma_md_small(2);
        lemma_inv_md(2, gamma_inv@ as int);
    }
    // The circulant kernel d_0 = 0, d_r = 1/(1 − ω^(−r)), and its FFT.
    let d_hat = kernel_transform(ell, &omega);
    // tm_j = e(ct_j[1], p2_j)
    let mut tm: Vec<Gt> = Vec::new();
    let mut ct1_proj: Vec<G1> = Vec::new();
    let mut k: usize = 0;
    while k < ell
        invariant
            0 <= k <= ell,
            ell == cts@.len(),
            ell == dk.p2_vec@.len(),
            tm@.len() == k,
            ct1_proj@.len() == k,
            forall|i: int|
                0 <= i < k ==> #[trigger] tm@[i].dlog() == pair_dlogs(cts@, dk.p2_vec@)[i],
            forall|i: int| 0 <= i < k ==> #[trigger] ct1_proj@[i].dlog() == ct1_dlogs(cts@)[i],
        decreases ell - k,
    {
        tm.push(Gt::pairing(&cts[k].ct1, &dk.p2_vec[k]));
        ct1_proj.push(cts[k].ct1.duplicate());
        k += 1;
    }
    proof {
        assert(dlogs(tm@) =~= pair_dlogs(cts@, dk.p2_vec@));
        assert(dlogs(ct1_proj@) =~= ct1_dlogs(cts@));
        use_type_invariant(&omega);
        assert(n > 0) by {
            let l = choose|l: nat| pow2(l) == n;
            lemma_pow2_pos(l);
        }
        lemma_md_small(pow(omega@ as int, n));
        lemma_md_small(0);
        if omega@ == 0 {
            vstd::arithmetic::power::lemma0_pow(n);
        }
    }
    let conv_g1 = circulant_mul(d_hat.as_slice(), ct1_proj.as_slice(), &omega);
    let conv_gt = circulant_mul(d_hat.as_slice(), tm.as_slice(), &omega);
    proof {
        assert forall|i: int| 0 <= i < ell implies #[trigger] conv_g1@[i].dlog() == conv(
            ct1_dlogs(cts@),
            n,
            i,
        ) by {
            assert forall|k: int| 0 <= k < n implies 0 <= #[trigger] ct1_dlogs(cts@)[k] < modulus() by {
                cts@[k].ct1.lemma_dlog_bound();
            }
            lemma_conv_circulant(ct1_dlogs(cts@), i as nat);
        }
        assert forall|i: int| 0 <= i < ell implies #[trigger] conv_gt@[i].dlog() == conv(
            pair_dlogs(cts@, dk.p2_vec@),
            n,
            i,
        ) by {
            assert forall|k: int| 0 <= k < n implies 0 <= #[trigger] pair_dlogs(cts@, dk.p2_vec@)[k] < modulus() by {
                lemma_md_small(cts@[k].ct1.dlog() * dk.p2_vec@[k].dlog());
            }
            lemma_conv_circulant(pair_dlogs(cts@, dk.p2_vec@), i as nat);
        }
    }
    // ω^j for all j.
    let mut omega_pows: Vec<Scalar> = Vec::new();
    let mut acc = Scalar::one();
    let mut j: usize = 0;
    proof {
        lemma_pow0(omega@ as int);
        lemma_md_small(1);
    }
    while j < ell
        invariant
            0 <= j <= ell,
            n == ell,
            omega@ == root_of_unity(n),
            acc@ == root_pow(n, j as nat),
            omega_pows@.len() == j,
            forall|i: int| 0 <= i < j ==> #[trigger] omega_pows@[i]@ == root_pow(n, i as nat),
        decreases ell - j,
    {
        omega_pows.push(acc.duplicate());
        proof {
            lemma_root_pow_step(n, j as nat);
        }
        acc = acc.mul(&omega);
        j += 1;
    }
    let sbk_proj = sbk.sbk.duplicate();
    let p0pg_2_proj = dk.p0_plus_pg_2.duplicate();
    let mut out: Vec<Gt> = Vec::new();
    let mut j: usize = 0;
    while j < ell
        invariant
            0 <= j <= ell,
            n == ell,
            ell == cts@.len(),
            ell == dk.p2_vec@.len(),
            ell == dk.w_vec@.len(),
            gamma@ == 2,
            gamma_inv@ == inv(2),
            sbk_proj.dlog() == sbk.sbk.dlog(),
            p0pg_2_proj.dlog() == dk.p0_plus_pg_2.dlog(),
            omega_pows@.len() == ell,
            conv_g1@.len() == ell,
            conv_gt@.len() == ell,
            forall|i: int| 0 <= i < ell ==> #[trigger] omega_pows@[i]@ == root_pow(n, i as nat),
            forall|i: int|
                0 <= i < ell ==> #[trigger] conv_g1@[i].dlog() == conv(ct1_dlogs(cts@), n, i),
            forall|i: int|
                0 <= i < ell ==> #[trigger] conv_gt@[i].dlog() == conv(
                    pair_dlogs(cts@, dk.p2_vec@),
                    n,
                    i,
                ),
            out@.len() == j,
            forall|i: int|
                0 <= i < j ==> #[trigger] out@[i].dlog() == md(
                    cts@[i].ct2.dlog() - dec_pad(*dk, sbk.sbk.dlog(), cts@, i),
                ),
        decreases ell - j,
    {
        let omega_j = &omega_pows[j];
        let s2 = omega_j.mul(&gamma_inv);
        let s1 = s2.mul(&omega_j.sub(&gamma));
        let g1_a = cts[j].ct1.duplicate();
        let g1_b = sbk_proj.plus(&conv_g1[j]);
        let g2_a = p0pg_2_proj.times(&s2).minus(&dk.w_vec[j].times(&s1));
        let g2_b = dk.p2_vec[j].times(&s1);
        let mut g1s: Vec<G1> = Vec::new();
        g1s.push(g1_a);
        g1s.push(g1_b);
        let mut g2s: Vec<G2> = Vec::new();
        g2s.push(g2_a);
        g2s.push(g2_b);
        let paired = Gt::multi_pairing(&g1s, &g2s);
        let r_val = paired.minus(&conv_gt[j].times(&s1));
        proof {
            lemma_dec_pad_congruent(*dk, sbk.sbk.dlog(), cts@, j as int, s2@ as int, s1@ as int,
                g1s@, g2s@, r_val.dlog());
        }
        out.push(cts[j].ct2.minus(&r_val));
        proof {
            lemma_cong_sub(cts@[j as int].ct2.dlog(), dec_pad(*dk, sbk.sbk.dlog(), cts@, j as int),
                cts@[j as int].ct2.dlog(), r_val.dlog());
            cts@[j as int].ct2.lemma_dlog_bound();
            lemma_md_small(cts@[j as int].ct2.dlog());
        }
        j += 1;
    }
    proof {
        assert forall|x: int, j: int|
            #![trigger honest_batch(*dk, sbk.sbk.dlog(), cts@, x), out@[j]]
            honest_batch(*dk, sbk.sbk.dlog(), cts@, x) && 0 <= j < cts@.len() implies out@[j].dlog() == md(
                cts@[j].ct2.dlog() - cts@[j].ct1.dlog() * pf(x, 0),
            ) by {
            lemma_dec_pad_honest(*dk, sbk.sbk.dlog(), cts@, x, j);
            lemma_cong_sub(cts@[j].ct2.dlog(), cts@[j].ct1.dlog() * pf(x, 0), cts@[j].ct2.dlog(), dec_pad(
                *dk,
                sbk.sbk.dlog(),
                cts@,
                j,
            ));
        }
    }
    out
}

} // verus!
