//! Construction 1: batch encryption using partial fractions.
//!
//! The secret is `x` in Fr; batch indices are the `ell`-th roots of unity
//! `ω^j`, and `p_i(x) = 1/(x + i)`. Group elements are written additively:
//! `[a]_1`, `[a]_2`, `[a]_T` stand for `a` times the generator of G1, G2, GT.

use vstd::prelude::*;
use vstd::arithmetic::power::{pow, lemma_pow0};
use vstd::arithmetic::power2::{pow2, lemma_pow2_pos, lemma2_to64};
use crate::field::{Scalar, is_drawn, modulus, md, inv, lemma_md_add, lemma_md_small, lemma_cong_add,
    lemma_cong_sub, lemma_cong_mul, lemma_inv_md, lemma_inv_unique, lemma_inv_product,
    lemma_diff_nonzero, invertible, lemma_invertible_nonzero};
use crate::group::{G1, G2, Gt, GroupElem, pairing_sum};
use crate::fft::{is_pow2, dlogs, circulant_mul};
use crate::partial_fractions::{root_of_unity, root_pow, pf, valid_secret, off_roots, secret_is_valid,
    lemma_root_pow_step, lemma_root_pow_not_two, conv, lemma_conv_circulant, kernel_transform,
    get_omega, get_extra_index, partial_fraction_at, lemma_extra_index_pow2, avoids_roots};
use crate::nizk;
use crate::batch_enc_correctness::{honest_batch, lemma_dec_pad_honest};

verus! {

/// Encryption key: `ek_sum = Σ_{i ∈ S} [p_i(x)]_1` over `S = {0, γ} ∪ H`,
/// and `p0_t = [p_0(x)]_T`, the one-time pad base.
pub struct EncryptionKey {
    pub ek_sum: G1,
    pub p0_t: Gt,
}

/// Secret key: `x` in Fr.
pub struct SecretKey {
    pub x: Scalar,
}

/// Decryption key: `dk[j] = [1/(x + ω^j)]_2` and `dk_sum = Σ_j dk[j]`.
pub struct DecryptionKey {
    pub dk: Vec<G2>,
    pub dk_sum: G2,
}

/// A ciphertext `ct1 = [r]_1`, `ct2 = r · ek_sum`, `ct3 = r · [p_0(x)]_T + m`,
/// with a NIZK proof of knowledge of `r`.
pub struct Ciphertext {
    pub ct1: G1,
    pub ct2: G1,
    pub ct3: Gt,
    pub proof: nizk::Proof,
}

/// Pre-decryption key: `sbk = Σ_j p_{ω^j}(x) · ct_j[1]` in G1.
pub struct PreDecryptionKey {
    pub sbk: G1,
}

/// The keys made by [`setup`].
pub struct SetupOutput {
    pub ek: EncryptionKey,
    pub sk: SecretKey,
    pub dk: DecryptionKey,
}

/// `Σ_{j<k} p_{ω^j}(x)`.
pub open spec fn pf_sum(x: int, n: nat, k: int) -> int
    decreases k,
{
    if k <= 0 {
        0
    } else {
        pf_sum(x, n, k - 1) + pf(x, root_pow(n, (k - 1) as nat))
    }
}

/// The keys that setup makes from the secret `x` for batch size `n`.
pub open spec fn keys_from_secret(out: SetupOutput, x: int, n: nat) -> bool {
    &&& out.sk.x@ == x
    &&& out.ek.ek_sum.dlog() == md(pf(x, 0) + pf(x, 2) + pf_sum(x, n, n as int))
    &&& out.ek.p0_t.dlog() == pf(x, 0)
    &&& out.dk.dk@.len() == n
    &&& forall|j: int| 0 <= j < n ==> #[trigger] out.dk.dk@[j].dlog() == pf(x, root_pow(n, j as nat))
    &&& out.dk.dk_sum.dlog() == md(pf_sum(x, n, n as int))
}

/// Setup from a given secret `x`: `None` exactly when `x` hits a pole of the
/// scheme's partial fractions (then no keys can be made from it).
pub fn setup_with_secret(ell: usize, x: Scalar) -> (out: Option<SetupOutput>)
    requires
        is_pow2(ell as nat),
        ell <= pow2(32),
    ensures
        out is Some <==> valid_secret(x@ as int, ell as nat),
        out matches Some(o) ==> keys_from_secret(o, x@ as int, ell as nat),
{
    let omega = get_omega(ell);
    proof {
        lemma_extra_index_pow2(ell as nat);
    }
    let gamma = get_extra_index(ell);
    if !secret_is_valid(&x, ell, &omega, &gamma) {
        return None;
    }
    let ghost xv = x@ as int;
    let ghost n = ell as nat;
    let zero = Scalar::zero();
    let g1 = G1::generator();
    proof {
        use_type_invariant(&x);
        lemma_invertible_nonzero(xv);
        lemma_invertible_nonzero(xv + 2);
        lemma_md_small(xv);
        lemma_md_small(0);
        lemma_md_small(1);
    }
    // ek_sum = [1/x]_1 + [1/(x+γ)]_1 + Σ_{j=0}^{ell-1} [1/(x+ω^j)]_1
    let p0 = partial_fraction_at(&x, &zero);
    let pg = partial_fraction_at(&x, &gamma);
    proof {
        use_type_invariant(&p0);
        use_type_invariant(&pg);
    }
    let mut ek_sum = G1::identity();
    ek_sum = ek_sum.plus(&g1.times(&p0));
    ek_sum = ek_sum.plus(&g1.times(&pg));
    proof {
        lemma_md_small(p0@ as int);
        lemma_md_small(pg@ as int);
        lemma_md_add(p0@ as int, pg@ as int);
        assert(ek_sum.dlog() == md(pf(xv, 0) + pf(xv, 2) + pf_sum(xv, n, 0)));
    }
    let mut omega_j = Scalar::one();
    let mut j: usize = 0;
    proof {
        lemma_pow0(omega@ as int);
    }
    while j < ell
        invariant
            0 <= j <= ell,
            n == ell,
            xv == x@,
            x@ < modulus(),
            valid_secret(xv, n),
            omega@ == root_of_unity(n),
            omega_j@ == root_pow(n, j as nat),
            g1.dlog() == 1,
            ek_sum.dlog() == md(pf(xv, 0) + pf(xv, 2) + pf_sum(xv, n, j as int)),
        decreases ell - j,
    {
        proof {
            lemma_invertible_nonzero(xv + root_pow(n, j as nat));
            lemma_root_pow_step(n, j as nat);
        }
        let p = partial_fraction_at(&x, &omega_j);
        proof {
            use_type_invariant(&p);
            lemma_md_small(p@ as int);
            lemma_md_add(pf(xv, 0) + pf(xv, 2) + pf_sum(xv, n, j as int), p@ as int);
            lemma_md_small(pf(xv, 0) + pf(xv, 2) + pf_sum(xv, n, j as int));
        }
        ek_sum = ek_sum.plus(&g1.times(&p));
        omega_j = omega_j.mul(&omega);
        j += 1;
    }
    // p0_T = e([1/x]_1, [1]_2), stored in GT to avoid a pairing during Enc
    let p0_t = Gt::pairing(&g1.times(&p0), &G2::generator());
    let ek = EncryptionKey { ek_sum, p0_t };
    // dk[j] = [1/(x + ω^j)]_2
    let mut dk_vec: Vec<G2> = Vec::new();
    let mut dk_sum = G2::identity();
    let g2 = G2::generator();
    let mut omega_j = Scalar::one();
    let mut j: usize = 0;
    while j < ell
        invariant
            0 <= j <= ell,
            n == ell,
            xv == x@,
            x@ < modulus(),
            valid_secret(xv, n),
            omega@ == root_of_unity(n),
            omega_j@ == root_pow(n, j as nat),
            g2.dlog() == 1,
            dk_vec@.len() == j,
            forall|i: int| 0 <= i < j ==> #[trigger] dk_vec@[i].dlog() == pf(xv, root_pow(n, i as nat)),
            dk_sum.dlog() == md(pf_sum(xv, n, j as int)),
        decreases ell - j,
    {
        proof {
            lemma_invertible_nonzero(xv + root_pow(n, j as nat));
            lemma_root_pow_step(n, j as nat);
        }
        let p = partial_fraction_at(&x, &omega_j);
        proof {
            use_type_invariant(&p);
            lemma_md_small(p@ as int);
            lemma_md_add(pf_sum(xv, n, j as int), p@ as int);
            lemma_md_small(pf_sum(xv, n, j as int));
        }
        let dk_j = g2.times(&p);
        dk_sum = dk_sum.plus(&dk_j);
        dk_vec.push(dk_j);
        omega_j = omega_j.mul(&omega);
        j += 1;
    }
    let dk = DecryptionKey { dk: dk_vec, dk_sum };
    let sk = SecretKey { x };
    Some(SetupOutput { ek, sk, dk })
}

/// Setup(1^λ, 1^ell): samples the secret `x` and makes the keys for batch
/// size `ell` (a power of two). `None` when the sampled `x` hits one of the
/// `ell + 2` poles of the scheme (probability about `ell / r`). Whether that
/// happens rests on the draw, so the contract says what holds of every
/// outcome; `setup_with_secret` states exactly when a given secret succeeds.
pub fn setup(ell: usize, rng: &mut ark_std::rand::rngs::StdRng) -> (out: Option<SetupOutput>)
    requires
        is_pow2(ell as nat),
        ell <= pow2(32),
    ensures
        out matches Some(o) ==> valid_secret(o.sk.x@ as int, ell as nat) && keys_from_secret(
            o,
            o.sk.x@ as int,
            ell as nat,
        ),
        exists|x: Scalar|
            #![trigger is_drawn(x)]
            is_drawn(x) && (out is Some <==> valid_secret(x@ as int, ell as nat)) && (out matches Some(o)
                ==> o.sk.x@ == x@ && keys_from_secret(o, x@ as int, ell as nat)),
{
    let draw = Scalar::random;
    let x = draw(rng);
    let out = setup_with_secret(ell, x);
    proof {
        assert(is_drawn(x));
    }
    out
}

/// The NIZK statements `(ct[1], ct[2])` of a batch of ciphertexts.
pub open spec fn ct_statements(cts: Seq<Ciphertext>) -> Seq<(int, int)> {
    cts.map_values(|ct: Ciphertext| (ct.ct1.dlog(), ct.ct2.dlog()))
}

/// The NIZK proofs of a batch of ciphertexts.
pub open spec fn ct_proofs(cts: Seq<Ciphertext>) -> Seq<(int, int, int)> {
    cts.map_values(|ct: Ciphertext| ct.proof@)
}

/// What an honest encryption of `m` under `ek` is, with `r = dlog(ct1)` its
/// randomness: `ct2 = r·ek_sum`, `ct3 = r·p0_t + m`, and an honest proof of
/// knowledge of `r`.
pub open spec fn honest_ciphertext<H: nizk::TranscriptOracle>(
    ek: EncryptionKey,
    m: int,
    ct: Ciphertext,
) -> bool {
    &&& ct.ct2.dlog() == md(ct.ct1.dlog() * ek.ek_sum.dlog())
    &&& ct.ct3.dlog() == md(ct.ct1.dlog() * ek.p0_t.dlog() + m)
    &&& nizk::honest_proof::<H>(
        ek.ek_sum.dlog(),
        (ct.ct1.dlog(), ct.ct2.dlog()),
        ct.ct1.dlog(),
        ct.proof@,
    )
}

/// Enc(ek, m): encrypts a message `m` in GT with fresh randomness `r`:
/// `ct1 = [r]_1`, `ct2 = r·ek_sum`, `ct3 = r·[p_0(x)]_T + m`, and a NIZK
/// proof of knowledge of `r`.
pub fn encrypt<H: nizk::TranscriptOracle>(
    ek: &EncryptionKey,
    m: &Gt,
    rng: &mut ark_std::rand::rngs::StdRng,
) -> (ct: Ciphertext)
    ensures
        honest_ciphertext::<H>(*ek, m.dlog(), ct),
{
    let r = Scalar::random(rng);
    let ct1 = G1::generator().times(&r);
    let ct2 = ek.ek_sum.times(&r);
    let ct3 = ek.p0_t.times(&r).plus(m);
    let nizk_params = nizk::NizkParams { x0: ek.ek_sum.duplicate() };
    let nizk_stmt = nizk::Statement { x1: ct1.duplicate(), x2: ct2.duplicate() };
    let proof = nizk::prove::<H>(&nizk_params, &nizk_stmt, &r, rng);
    proof {
        lemma_md_small(r@ as int);
        assert(ek.ek_sum.dlog() * r@ == r@ * ek.ek_sum.dlog()) by (nonlinear_arith);
        assert(ek.p0_t.dlog() * r@ == r@ * ek.p0_t.dlog()) by (nonlinear_arith);
        lemma_md_add(r@ * ek.p0_t.dlog(), m.dlog());
        lemma_md_small(r@ * ek.p0_t.dlog());
        m.lemma_dlog_bound();
        lemma_md_small(m.dlog());
    }
    Ciphertext { ct1, ct2, ct3, proof }
}

/// `Σ_{j<k} p_{ω^j}(x) · dlog(ct_j[1])`.
pub open spec fn sbk_sum(x: int, cts: Seq<Ciphertext>, n: nat, k: int) -> int
    decreases k,
{
    if k <= 0 {
        0
    } else {
        sbk_sum(x, cts, n, k - 1) + cts[k - 1].ct1.dlog() * pf(x, root_pow(n, (k - 1) as nat))
    }
}

/// PreDec(sk, ek, cts): batch-verifies the NIZK proofs and computes the
/// pre-decryption key `sbk = Σ_j p_{ω^j}(x) · ct_j[1]`. Returns `None` when
/// the batch verification rejects; a batch of proofs that each verify is
/// never rejected. The secret must avoid the roots of unity (the keys of
/// [`setup`] do); [`pre_decrypt_checked`] tests that first.
/// The proof check runs on weights drawn from `rng`, which rest on the
/// generator's state: the clause that some weights give the outcome holds of
/// every outcome (all-zero weights pass any batch) and does not pin it down.
pub fn pre_decrypt<H: nizk::TranscriptOracle>(
    sk: &SecretKey,
    ek: &EncryptionKey,
    cts: &[Ciphertext],
    rng: &mut ark_std::rand::rngs::StdRng,
) -> (r: Option<PreDecryptionKey>)
    requires
        is_pow2(cts@.len()),
        cts@.len() <= pow2(32),
        off_roots(sk.x@ as int, cts@.len()),
    ensures
        nizk::all_accept::<H>(ek.ek_sum.dlog(), ct_statements(cts@), ct_proofs(cts@)) ==> r is Some,
        exists|gs: Seq<int>|
            gs.len() == cts@.len() && (r is Some <==> nizk::batch_accepts::<H>(
                ek.ek_sum.dlog(),
                ct_statements(cts@),
                ct_proofs(cts@),
                gs,
            )),
        cts@.len() > 0 ==> nizk::drawn_batch_decides::<H>(
            ek.ek_sum.dlog(),
            ct_statements(cts@),
            ct_proofs(cts@),
            r is Some,
        ),
        r matches Some(k) ==> k.sbk.dlog() == md(
            sbk_sum(sk.x@ as int, cts@, cts@.len(), cts@.len() as int),
        ),
{
    let ell = cts.len();
    let omega = get_omega(ell);
    let nizk_params = nizk::NizkParams { x0: ek.ek_sum.duplicate() };
    // Step 1: batch-verify all NIZK proofs.
    let mut statements: Vec<nizk::Statement> = Vec::new();
    let mut proofs: Vec<nizk::Proof> = Vec::new();
    let mut i: usize = 0;
    while i < ell
        invariant
            0 <= i <= ell,
            ell == cts@.len(),
            statements@.len() == i,
            proofs@.len() == i,
            forall|k: int| 0 <= k < i ==> #[trigger] statements@[k]@ == ct_statements(cts@)[k],
            forall|k: int| 0 <= k < i ==> #[trigger] proofs@[k]@ == ct_proofs(cts@)[k],
        decreases ell - i,
    {
        let ct = &cts[i];
        statements.push(nizk::Statement { x1: ct.ct1.duplicate(), x2: ct.ct2.duplicate() });
        proofs.push(ct.proof.duplicate());
        i += 1;
    }
    proof {
        assert(nizk::statement_views(statements@) =~= ct_statements(cts@));
        assert(nizk::proof_views(proofs@) =~= ct_proofs(cts@));
    }
    if !nizk::verify_batch::<H>(&nizk_params, statements.as_slice(), proofs.as_slice(), rng) {
        return None;
    }
    // Step 2: sbk = Σ_j [1/(sk + ω^j)] · ct_j[1]
    let ghost x = sk.x@ as int;
    let ghost n = ell as nat;
    let mut sbk = G1::identity();
    let mut omega_j = Scalar::one();
    let mut j: usize = 0;
    proof {
        lemma_md_small(0);
        lemma_md_small(1);
        lemma_pow0(omega@ as int);
    }
    while j < ell
        invariant
            0 <= j <= ell,
            ell == cts@.len(),
            n == ell,
            x == sk.x@,
            off_roots(x, n),
            omega@ == root_of_unity(n),
            omega_j@ == root_pow(n, j as nat),
            sbk.dlog() == md(sbk_sum(x, cts@, n, j as int)),
        decreases ell - j,
    {
        proof {
            assert(md(x + root_pow(n, j as nat)) != 0);
            lemma_root_pow_step(n, j as nat);
        }
        let p = partial_fraction_at(&sk.x, &omega_j);
        let term = cts[j].ct1.times(&p);
        proof {
            lemma_md_add(sbk_sum(x, cts@, n, j as int), cts@[j as int].ct1.dlog() * p@);
            lemma_md_small(sbk_sum(x, cts@, n, j as int));
            lemma_md_small(cts@[j as int].ct1.dlog() * p@);
        }
        sbk = sbk.plus(&term);
        omega_j = omega_j.mul(&omega);
        j += 1;
    }
    Some(PreDecryptionKey { sbk })
}

/// PreDec with the secret tested first: `None`, with nothing drawn from
/// `rng`, when `x + ω^j` is zero for some `j` (where [`pre_decrypt`] cannot
/// run); otherwise what [`pre_decrypt`] gives.
pub fn pre_decrypt_checked<H: nizk::TranscriptOracle>(
    sk: &SecretKey,
    ek: &EncryptionKey,
    cts: &[Ciphertext],
    rng: &mut ark_std::rand::rngs::StdRng,
) -> (r: Option<PreDecryptionKey>)
    requires
        is_pow2(cts@.len()),
        cts@.len() <= pow2(32),
    ensures
        !off_roots(sk.x@ as int, cts@.len()) ==> r is None && *final(rng) == *old(rng),
        off_roots(sk.x@ as int, cts@.len()) && nizk::all_accept::<H>(
            ek.ek_sum.dlog(),
            ct_statements(cts@),
            ct_proofs(cts@),
        ) ==> r is Some,
        off_roots(sk.x@ as int, cts@.len()) ==> exists|gs: Seq<int>|
            gs.len() == cts@.len() && (r is Some <==> nizk::batch_accepts::<H>(
                ek.ek_sum.dlog(),
                ct_statements(cts@),
                ct_proofs(cts@),
                gs,
            )),
        off_roots(sk.x@ as int, cts@.len()) && cts@.len() > 0 ==> nizk::drawn_batch_decides::<H>(
            ek.ek_sum.dlog(),
            ct_statements(cts@),
            ct_proofs(cts@),
            r is Some,
        ),
        r matches Some(k) ==> k.sbk.dlog() == md(
            sbk_sum(sk.x@ as int, cts@, cts@.len(), cts@.len() as int),
        ),
{
    let omega = get_omega(cts.len());
    if !avoids_roots(&sk.x, cts.len(), &omega) {
        return None;
    }
    pre_decrypt::<H>(sk, ek, cts, rng)
}

/// The discrete logarithms of the first components of a batch.
pub open spec fn ct1_dlogs(cts: Seq<Ciphertext>) -> Seq<int> {
    cts.map_values(|ct: Ciphertext| ct.ct1.dlog())
}

/// The discrete logarithms of `e(ct_k[1], dk_k)`.
pub open spec fn pair_dlogs(cts: Seq<Ciphertext>, dk: Seq<G2>) -> Seq<int> {
    Seq::new(cts.len(), |k: int| md(cts[k].ct1.dlog() * dk[k].dlog()))
}

/// The decryption coefficient `ω^(−j)·(n+1)/2 + 1/(ω^j − γ)`.
pub open spec fn dec_coeff(n: nat, j: int) -> int {
    let u = root_pow(n, j as nat);
    inv(u) * ((n + 1) * inv(2)) + inv(u - 2)
}

/// The one-time pad that decryption removes from `ct_j[3]`: with
/// `u = ω^j`, `s2 = u/γ`, `s1 = s2·(u − γ)` and
/// `A = ct_j[2] − sbk + coeff_j·ct_j[1] − (M·ct[1])_j`, it is
/// `e(s2·ct_j[2], [1]_2) + e(−s1·A, dk_j) + e(ct_j[1], s1·(M·dk)_j − s2·dk_sum) − s1·(M·tm)_j`
/// with `tm_k = e(ct_k[1], dk_k)`.
pub open spec fn dec_pad(dk: DecryptionKey, sbk: int, cts: Seq<Ciphertext>, j: int) -> int {
    let n = cts.len();
    let u = root_pow(n, j as nat);
    let c1 = cts[j].ct1.dlog();
    let c2 = cts[j].ct2.dlog();
    let s2 = u * inv(2);
    let s1 = s2 * (u - 2);
    let a = c2 - sbk + c1 * dec_coeff(n, j) - conv(ct1_dlogs(cts), n, j);
    c2 * s2 + (-(a * s1)) * dk.dk[j].dlog() + c1 * (conv(dlogs(dk.dk@), n, j) * s1
        - dk.dk_sum.dlog() * s2) - conv(pair_dlogs(cts, dk.dk@), n, j) * s1
}

/// Dec(dk, sbk, cts): batch-decrypts all `ell` ciphertexts, removing from
/// each `ct_j[3]` its pad, computed with three FFT convolutions.
pub fn decrypt(dk: &DecryptionKey, sbk: &PreDecryptionKey, cts: &[Ciphertext]) -> (out: Vec<Gt>)
    requires
        dk.dk@.len() == cts@.len(),
        is_pow2(cts@.len()),
        cts@.len() <= pow2(32),
    ensures
        out@.len() == cts@.len(),
        forall|j: int|
            0 <= j < cts@.len() ==> #[trigger] out@[j].dlog() == md(
                cts@[j].ct3.dlog() - dec_pad(*dk, sbk.sbk.dlog(), cts@, j),
            ),
        forall|x: int, j: int|
            #![trigger honest_batch(*dk, sbk.sbk.dlog(), cts@, x), out@[j]]
            honest_batch(*dk, sbk.sbk.dlog(), cts@, x) && 0 <= j < cts@.len() ==> out@[j].dlog() == md(
                cts@[j].ct3.dlog() - cts@[j].ct1.dlog() * pf(x, 0),
            ),
{
    let ell = cts.len();
    let ghost n = ell as nat;
    let omega = get_omega(ell);
    proof {
        lemma_md_small(pow(omega@ as int, n));
        lemma_md_small(0);
        lemma_md_small(1);
        lemma_md_small(2);
        use_type_invariant(&omega);
        assert(n > 0) by {
            let l = choose|l: nat| pow2(l) == n;
            lemma_pow2_pos(l);
        }
        if omega@ == 0 {
            vstd::arithmetic::power::lemma0_pow(n);
        }
    }
    let omega_inv = omega.inverse().expect("omega must be invertible");
    proof {
        lemma_extra_index_pow2(ell as nat);
    }
    let gamma = get_extra_index(ell);
    let gamma_inv = gamma.inverse().expect("gamma must be invertible");
    proof {
        use_type_invariant(&omega_inv);
        use_type_invariant(&gamma_inv);
        lemma_inv_md(omega@ as int, omega_inv@ as int);
        lemma_inv_md(2, gamma_inv@ as int);
    }
    // The circulant kernel d_0 = 0, d_r = 1/(1 − ω^(−r)), and its FFT.
    let d_hat = kernel_transform(ell, &omega);
    // tm_j = e(ct_j[1], dk_j), and the inputs of the three convolutions.
    let mut tm: Vec<Gt> = Vec::new();
    let mut ct1_proj: Vec<G1> = Vec::new();
    let mut dk_proj: Vec<G2> = Vec::new();
    let mut k: usize = 0;
    while k < ell
        invariant
            0 <= k <= ell,
            ell == cts@.len(),
            ell == dk.dk@.len(),
            tm@.len() == k,
            ct1_proj@.len() == k,
            dk_proj@.len() == k,
            forall|i: int| 0 <= i < k ==> #[trigger] tm@[i].dlog() == pair_dlogs(cts@, dk.dk@)[i],
            forall|i: int| 0 <= i < k ==> #[trigger] ct1_proj@[i].dlog() == ct1_dlogs(cts@)[i],
            forall|i: int| 0 <= i < k ==> #[trigger] dk_proj@[i].dlog() == dk.dk@[i].dlog(),
        decreases ell - k,
    {
        tm.push(Gt::pairing(&cts[k].ct1, &dk.dk[k]));
        ct1_proj.push(cts[k].ct1.duplicate());
        dk_proj.push(dk.dk[k].duplicate());
        k += 1;
    }
    proof {
        assert(dlogs(tm@) =~= pair_dlogs(cts@, dk.dk@));
        assert(dlogs(ct1_proj@) =~= ct1_dlogs(cts@));
        assert(dlogs(dk_proj@) =~= dlogs(dk.dk@));
    }
    // Three FFT convolutions: (M·ct[1])_j in G1, (M·dk)_j in G2, (M·tm)_j in GT.
    let conv_g1 = circulant_mul(d_hat.as_slice(), ct1_proj.as_slice(), &omega);
    let conv_g2 = circulant_mul(d_hat.as_slice(), dk_proj.as_slice(), &omega);
    let conv_gt = circulant_mul(d_hat.as_slice(), tm.as_slice(), &omega);
    proof {
        assert forall|i: int| 0 <= i < ell implies #[trigger] conv_g1@[i].dlog() == conv(
            ct1_dlogs(cts@),
            n,
            i,
        ) by {
            assert forall|k: int| 0 <= k < n implies 0 <= #[trigger] ct1_dlogs(cts@)[k] < modulus() by {
                cts@[k].ct1.lemma_dlog_bound();
            }
            lemma_conv_circulant(ct1_dlogs(cts@), i as nat);
        }
        assert forall|i: int| 0 <= i < ell implies #[trigger] conv_g2@[i].dlog() == conv(
            dlogs(dk.dk@),
            n,
            i,
        ) by {
            assert forall|k: int| 0 <= k < n implies 0 <= #[trigger] dlogs(dk.dk@)[k] < modulus() by {
                dk.dk@[k].lemma_dlog_bound();
            }
            lemma_conv_circulant(dlogs(dk.dk@), i as nat);
        }
        assert forall|i: int| 0 <= i < ell implies #[trigger] conv_gt@[i].dlog() == conv(
            pair_dlogs(cts@, dk.dk@),
            n,
            i,
        ) by {
            assert forall|k: int| 0 <= k < n implies 0 <= #[trigger] pair_dlogs(cts@, dk.dk@)[k] < modulus() by {
                lemma_md_small(cts@[k].ct1.dlog() * dk.dk@[k].dlog());
            }
            lemma_conv_circulant(pair_dlogs(cts@, dk.dk@), i as nat);
        }
    }
    // coeffs[j] = ω^(−j)·(n+1)/2 + 1/(ω^j − γ)
    let two_inv = Scalar::from_u64(2).inverse().unwrap();
    proof {
        use_type_invariant(&two_inv);
        lemma_inv_md(2, two_inv@ as int);
    }
    proof {
        lemma2_to64();
    }
    let half_np1 = Scalar::from_u64(ell as u64 + 1).mul(&two_inv);
    let mut coeffs: Vec<Scalar> = Vec::new();
    let mut omega_j = Scalar::one();
    let mut omega_inv_j = Scalar::one();
    let mut j: usize = 0;
    proof {
        lemma_pow0(omega@ as int);
        lemma_inv_unique(1, 1);
    }
    while j < ell
        invariant
            0 <= j <= ell,
            n == ell,
            omega@ == root_of_unity(n),
            md(pow(omega@ as int, n)) == 1,
            md(pow(gamma@ as int, n)) != 1,
            gamma@ == 2,
            md(omega@ * omega_inv@ as int) == 1,
            two_inv@ == inv(2),
            half_np1@ == md(md(ell + 1) * two_inv@),
            omega_j@ == root_pow(n, j as nat),
            omega_inv_j@ == inv(omega_j@ as int),
            md(omega_j@ * omega_inv_j@ as int) == 1,
            coeffs@.len() == j,
            forall|i: int| 0 <= i < j ==> #[trigger] coeffs@[i]@ == md(dec_coeff(n, i)),
        decreases ell - j,
    {
        let ghost u = omega_j@ as int;
        proof {
            use_type_invariant(&omega_j);
            use_type_invariant(&omega_inv_j);
            lemma_root_pow_not_two(n, j as nat);
            lemma_diff_nonzero(u, 2);
        }
        let v = omega_j.sub(&gamma).inverse().unwrap();
        proof {
            use_type_invariant(&v);
            lemma_inv_md(u - 2, v@ as int);
        }
        let c = omega_inv_j.mul(&half_np1).add(&v);
        proof {
            let h = (n + 1) * inv(2);
            lemma_md_small(ell + 1);
            lemma_cong_mul(ell + 1, inv(2), md(ell + 1), two_inv@ as int);
            lemma_md_small(md(md(ell + 1) * two_inv@));
            lemma_cong_mul(omega_inv_j@ as int, h, omega_inv_j@ as int, half_np1@ as int);
            lemma_md_small(omega_inv_j@ * half_np1@ as int);
            lemma_md_small(v@ as int);
            lemma_cong_add(omega_inv_j@ * h, v@ as int, md(omega_inv_j@ * half_np1@ as int), v@ as int);
        }
        coeffs.push(c);
        proof {
            lemma_root_pow_step(n, j as nat);
            lemma_inv_product(omega_j@ as int, omega@ as int, omega_inv_j@ as int, omega_inv@ as int);
        }
        omega_j = omega_j.mul(&omega);
        omega_inv_j = omega_inv_j.mul(&omega_inv);
        proof {
            use_type_invariant(&omega_inv_j);
            lemma_inv_unique(omega_j@ as int, omega_inv_j@ as int);
        }
        j += 1;
    }
    // g2 generator, reused in every pairing against [1]_2.
    let g2_gen = G2::generator();
    // ω^j for all j.
    let mut omega_pows: Vec<Scalar> = Vec::new();
    let mut acc = Scalar::one();
    let mut j: usize = 0;
    while j < ell
        invariant
            0 <= j <= ell,
            n == ell,
            omega@ == root_of_unity(n),
            acc@ == root_pow(n, j as nat),
            omega_pows@.len() == j,
            forall|i: int| 0 <= i < j ==> #[trigger] omega_pows@[i]@ == root_pow(n, i as nat),
        decreases ell - j,
    {
        omega_pows.push(acc.duplicate());
        proof {
            lemma_root_pow_step(n, j as nat);
        }
        acc = acc.mul(&omega);
        j += 1;
    }
    let mut out: Vec<Gt> = Vec::new();
    let mut j: usize = 0;
    while j < ell
        invariant
            0 <= j <= ell,
            n == ell,
            ell == cts@.len(),
            ell == dk.dk@.len(),
            gamma@ == 2,
            gamma_inv@ == inv(2),
            g2_gen.dlog() == 1,
            omega_pows@.len() == ell,
            coeffs@.len() == ell,
            conv_g1@.len() == ell,
            conv_g2@.len() == ell,
            conv_gt@.len() == ell,
            forall|i: int| 0 <= i < ell ==> #[trigger] omega_pows@[i]@ == root_pow(n, i as nat),
            forall|i: int| 0 <= i < ell ==> #[trigger] coeffs@[i]@ == md(dec_coeff(n, i)),
            forall|i: int|
                0 <= i < ell ==> #[trigger] conv_g1@[i].dlog() == conv(ct1_dlogs(cts@), n, i),
            forall|i: int|
                0 <= i < ell ==> #[trigger] conv_g2@[i].dlog() == conv(dlogs(dk.dk@), n, i),
            forall|i: int|
                0 <= i < ell ==> #[trigger] conv_gt@[i].dlog() == conv(
                    pair_dlogs(cts@, dk.dk@),
                    n,
                    i,
                ),
            out@.len() == j,
            forall|i: int|
                0 <= i < j ==> #[trigger] out@[i].dlog() == md(
                    cts@[i].ct3.dlog() - dec_pad(*dk, sbk.sbk.dlog(), cts@, i),
                ),
        decreases ell - j,
    {
        let omega_j = &omega_pows[j];
        let ct = &cts[j];
        // A = ct_j[2] − sbk + coeffs[j]·ct_j[1] − conv_g1[j]
        let a = ct.ct2.minus(&sbk.sbk).plus(&ct.ct1.times(&coeffs[j])).minus(&conv_g1[j]);
        let s2 = omega_j.mul(&gamma_inv);
        let s1 = s2.mul(&omega_j.sub(&gamma));
        let s2_ct2 = ct.ct2.times(&s2);
        let neg_s1_a = G1::identity().minus(&a.times(&s1));
        let g2_mix = conv_g2[j].times(&s1).minus(&dk.dk_sum.times(&s2));
        let mut g1s: Vec<G1> = Vec::new();
        g1s.push(s2_ct2);
        g1s.push(neg_s1_a);
        g1s.push(ct.ct1.duplicate());
        let mut g2s: Vec<G2> = Vec::new();
        g2s.push(g2_gen.duplicate());
        g2s.push(dk.dk[j].duplicate());
        g2s.push(g2_mix);
        let paired = Gt::multi_pairing(&g1s, &g2s);
        let r_val = paired.minus(&conv_gt[j].times(&s1));
        proof {
            lemma_dec_pad_congruent(*dk, sbk.sbk.dlog(), cts@, j as int, a.dlog(), coeffs@[j as int]@ as int,
                s2@ as int, s1@ as int, g1s@, g2s@, r_val.dlog());
        }
        out.push(ct.ct3.minus(&r_val));
        proof {
            lemma_cong_sub(cts@[j as int].ct3.dlog(), dec_pad(*dk, sbk.sbk.dlog(), cts@, j as int),
                cts@[j as int].ct3.dlog(), r_val.dlog());
            cts@[j as int].ct3.lemma_dlog_bound();
            lemma_md_small(cts@[j as int].ct3.dlog());
        }
        j += 1;
    }
    proof {
        assert forall|x: int, j: int|
            #![trigger honest_batch(*dk, sbk.sbk.dlog(), cts@, x), out@[j]]
            honest_batch(*dk, sbk.sbk.dlog(), cts@, x) && 0 <= j < cts@.len() implies out@[j].dlog() == md(
                cts@[j].ct3.dlog() - cts@[j].ct1.dlog() * pf(x, 0),
            ) by {
            lemma_dec_pad_honest(*dk, sbk.sbk.dlog(), cts@, x, j);
            lemma_cong_sub(cts@[j].ct3.dlog(), cts@[j].ct1.dlog() * pf(x, 0), cts@[j].ct3.dlog(), dec_pad(
                *dk,
                sbk.sbk.dlog(),
                cts@,
                j,
            ));
        }
    }
    out
}

/// The pad that the decryption loop computes step by step, each step reduced
/// modulo r, is congruent to [`dec_pad`].
proof fn lemma_dec_pad_congruent(
    dk: DecryptionKey,
    sbk: int,
    cts: Seq<Ciphertext>,
    j: int,
    ae: int,
    ce: int,
    s2e: int,
    s1e: int,
    g1s: Seq<G1>,
    g2s: Seq<G2>,
    rv: int,
)
    requires
        0 <= j < cts.len(),
        dk.dk@.len() == cts.len(),
        ce == md(dec_coeff(cts.len(), j)),
        ae == md(md(md(cts[j].ct2.dlog() - sbk) + md(cts[j].ct1.dlog() * ce)) - conv(
            ct1_dlogs(cts),
            cts.len(),
            j,
        )),
        s2e == md(root_pow(cts.len(), j as nat) * inv(2)),
        s1e == md(s2e * md(root_pow(cts.len(), j as nat) - 2)),
        g1s.len() == 3,
        g2s.len() == 3,
        g1s[0].dlog() == md(cts[j].ct2.dlog() * s2e),
        g1s[1].dlog() == md(0 - md(ae * s1e)),
        g1s[2].dlog() == cts[j].ct1.dlog(),
        g2s[0].dlog() == 1,
        g2s[1].dlog() == dk.dk@[j].dlog(),
        g2s[2].dlog() == md(md(conv(dlogs(dk.dk@), cts.len(), j) * s1e) - md(
            dk.dk_sum.dlog() * s2e,
        )),
        rv == md(md(pairing_sum(g1s, g2s, 3)) - md(
            conv(pair_dlogs(cts, dk.dk@), cts.len(), j) * s1e,
        )),
    ensures
        md(rv) == md(dec_pad(dk, sbk, cts, j)),
{
    let n = cts.len();
    let u = root_pow(n, j as nat);
    let c1 = cts[j].ct1.dlog();
    let c2 = cts[j].ct2.dlog();
    let e = dk.dk@[j].dlog();
    let dd = dk.dk_sum.dlog();
    let s2 = u * inv(2);
    let s1 = s2 * (u - 2);
    let cv1 = conv(ct1_dlogs(cts), n, j);
    let cv2 = conv(dlogs(dk.dk@), n, j);
    let cvt = conv(pair_dlogs(cts, dk.dk@), n, j);
    let a = c2 - sbk + c1 * dec_coeff(n, j) - cv1;
    // A
    lemma_md_small(dec_coeff(n, j));
    lemma_cong_mul(c1, dec_coeff(n, j), c1, ce);
    lemma_md_small(c2 - sbk);
    lemma_md_small(c1 * ce);
    lemma_cong_add(c2 - sbk, c1 * dec_coeff(n, j), md(c2 - sbk), md(c1 * ce));
    lemma_md_small(md(c2 - sbk) + md(c1 * ce));
    lemma_cong_sub(c2 - sbk + c1 * dec_coeff(n, j), cv1, md(md(c2 - sbk) + md(c1 * ce)), cv1);
    assert(md(ae) == md(a));
    // s2, s1
    lemma_md_small(s2);
    lemma_md_small(u - 2);
    lemma_cong_mul(s2, u - 2, s2e, md(u - 2));
    assert(md(s1e) == md(s1));
    // the three pairings
    lemma_cong_mul(c2, s2, c2, s2e);
    lemma_md_small(c2 * s2e);
    lemma_cong_mul(a, s1, ae, s1e);
    lemma_md_small(ae * s1e);
    lemma_cong_sub(0, a * s1, 0, md(ae * s1e));
    lemma_md_small(0 - md(ae * s1e));
    assert(md(g1s[1].dlog()) == md(-(a * s1)));
    lemma_cong_mul(cv2, s1, cv2, s1e);
    lemma_cong_mul(dd, s2, dd, s2e);
    lemma_md_small(cv2 * s1e);
    lemma_md_small(dd * s2e);
    lemma_cong_sub(cv2 * s1, dd * s2, md(cv2 * s1e), md(dd * s2e));
    lemma_md_small(md(cv2 * s1e) - md(dd * s2e));
    let t0 = c2 * s2;
    let t1 = (-(a * s1)) * e;
    let t2 = c1 * (cv2 * s1 - dd * s2);
    assert(pairing_sum(g1s, g2s, 3) == g1s[0].dlog() * g2s[0].dlog() + g1s[1].dlog() * g2s[1].dlog()
        + g1s[2].dlog() * g2s[2].dlog()) by {
        assert(pairing_sum(g1s, g2s, 0) == 0);
        assert(pairing_sum(g1s, g2s, 1) == pairing_sum(g1s, g2s, 0) + g1s[0].dlog() * g2s[0].dlog());
        assert(pairing_sum(g1s, g2s, 2) == pairing_sum(g1s, g2s, 1) + g1s[1].dlog() * g2s[1].dlog());
        assert(pairing_sum(g1s, g2s, 3) == pairing_sum(g1s, g2s, 2) + g1s[2].dlog() * g2s[2].dlog());
    }
    lemma_md_small(g1s[0].dlog());
    lemma_md_small(g1s[1].dlog());
    lemma_md_small(g2s[2].dlog());
    lemma_md_small(e);
    lemma_md_small(c1);
    lemma_cong_mul(-(a * s1), e, g1s[1].dlog(), e);
    lemma_cong_mul(c1, cv2 * s1 - dd * s2, c1, g2s[2].dlog());
    lemma_cong_add(t0, t1, g1s[0].dlog() * 1, g1s[1].dlog() * e);
    lemma_cong_add(t0 + t1, t2, g1s[0].dlog() * 1 + g1s[1].dlog() * e, c1 * g2s[2].dlog());
    let ps = pairing_sum(g1s, g2s, 3);
    lemma_md_small(ps);
    lemma_cong_mul(cvt, s1, cvt, s1e);
    lemma_md_small(cvt * s1e);
    lemma_cong_sub(t0 + t1 + t2, cvt * s1, md(ps), md(cvt * s1e));
    lemma_md_small(md(ps) - md(cvt * s1e));
}

} // verus!
