//! Correctness of decryption in Construction 5: on a batch decrypted with
//! the keys of one secret, the pad that decryption removes is the pad that
//! encryption added.

use vstd::prelude::*;
use vstd::arithmetic::power::{pow, lemma_pow0};
use vstd::arithmetic::power2::{pow2, lemma2_to64};
use crate::field::{modulus, md, inv, lemma_md_add, lemma_md_small, lemma_md_mul, lemma_md_sub, lemma_cong_add,
    lemma_cong_sub, lemma_cong_mul, lemma_invertible_from, lemma_unit_minus_one, lemma_combo,
    lemma_cong_of_diff, invertible};
use crate::group::GroupElem;
use crate::fft::{is_pow2, primitive_root};
use crate::convolution::{fsum, lemma_fsum_ext, lemma_fsum_cong, lemma_fsum_lin3, lemma_fsum_single,
    lemma_pow2_invertible};
use crate::partial_fractions::{root_of_unity, root_pow, pf, valid_secret, mcoef, conv, lemma_mcoef_inverse,
    lemma_mcoef_diag, lemma_cross_term, lemma_root_pow_inverse, lemma_root_minus_two_invertible};
use crate::batch_enc_short::{Ciphertext, DecryptionKey, SetupOutput, ct1_dlogs, pair_dlogs, sbk_sum, w_scalar,
    dec_pad, keys_from_secret, honest_ciphertext};
use crate::nizk_dlog;

verus! {

/// The decryption key and the pre-decryption key are those that the secret
/// `x` gives for the batch `cts`.
pub open spec fn honest_batch(dk: DecryptionKey, sbk: int, cts: Seq<Ciphertext>, x: int) -> bool {
    let n = cts.len();
    &&& valid_secret(x, n)
    &&& dk.p2_vec@.len() == n
    &&& dk.w_vec@.len() == n
    &&& forall|k: int| 0 <= k < n ==> #[trigger] dk.p2_vec@[k].dlog() == pf(x, root_pow(n, k as nat))
    &&& forall|k: int| 0 <= k < n ==> #[trigger] dk.w_vec@[k].dlog() == md(w_scalar(x, n, k))
    &&& dk.p0_plus_pg_2.dlog() == md(pf(x, 0) + pf(x, 2))
    &&& sbk == md(sbk_sum(x, cts, n, n as int))
}

/// `sbk_sum` is the sum of its terms.
proof fn lemma_sbk_sum_fsum(x: int, cts: Seq<Ciphertext>, n: nat, k: nat)
    requires
        k <= cts.len(),
    ensures
        sbk_sum(x, cts, n, k as int) == fsum(
            k,
            |i: int| ct1_dlogs(cts)[i] * pf(x, root_pow(n, i as nat)),
        ),
    decreases k,
{
    if k > 0 {
        lemma_sbk_sum_fsum(x, cts, n, (k - 1) as nat);
    }
}

/// `ω^j` is invertible, also for the batch size 1.
proof fn lemma_root_pow_invertible(n: nat, j: nat)
    requires
        is_pow2(n),
        primitive_root(root_of_unity(n) as int, n),
        j < n,
    ensures
        invertible(root_pow(n, j)),
{
    if n >= 2 {
        lemma_root_pow_inverse(n, j);
    } else {
        lemma_pow0(root_of_unity(n) as int);
        lemma_md_small(1);
        lemma_invertible_from(1, 1);
    }
}

/// What is left of the pad once the cross terms cancel:
/// `s2·(p_0 + p_γ) − s1·(p_0/u + p_γ/(u − γ)) = p_0`, for `s2 = u/γ`,
/// `s1 = s2·(u − γ)` and `γ = 2`.
#[verifier::spinoff_prover]
pub proof fn lemma_pad_scalar(u: int, i2: int, iu: int, iv: int, p0: int, pg: int)
    requires
        md(2 * i2) == 1,
        md(u * iu) == 1,
        md((u - 2) * iv) == 1,
    ensures
        md((u * i2) * (p0 + pg) - ((u * i2) * (u - 2)) * (iu * p0 + iv * pg)) == md(p0),
{
    let a3 = u * iu - 1;
    let a4 = (u - 2) * iv - 1;
    let a5 = 2 * i2 - 1;
    lemma_unit_minus_one(u * iu);
    lemma_unit_minus_one((u - 2) * iv);
    lemma_unit_minus_one(2 * i2);
    lemma_pad_scalar_identity(u, i2, iu, iv, p0, pg);
    lemma_combo(-(i2 * (u - 2) * p0), a3, -(i2 * u * pg), a4);
    lemma_md_mul(p0, a5);
    lemma_md_small(p0);
    lemma_md_small(0);
    assert(md(md(p0) * 0) == 0);
    lemma_md_add((-(i2 * (u - 2) * p0)) * a3 + (-(i2 * u * pg)) * a4, p0 * a5);
    lemma_cong_of_diff((u * i2) * (p0 + pg) - ((u * i2) * (u - 2)) * (iu * p0 + iv * pg), p0);
}

/// The polynomial identity behind [`lemma_pad_scalar`].
proof fn lemma_pad_scalar_identity(u: int, i2: int, iu: int, iv: int, p0: int, pg: int)
    ensures
        (u * i2) * (p0 + pg) - ((u * i2) * (u - 2)) * (iu * p0 + iv * pg) - p0 == (-(i2 * (u - 2) * p0))
            * (u * iu - 1) + (-(i2 * u * pg)) * ((u - 2) * iv - 1) + p0 * (2 * i2 - 1),
{
    let x1 = i2 * (u - 2) * p0;
    let x2 = i2 * u * pg;
    assert(((u * i2) * (u - 2)) * (iu * p0) == x1 * (u * iu)) by (nonlinear_arith)
        requires x1 == i2 * (u - 2) * p0;
    assert(((u * i2) * (u - 2)) * (iv * pg) == x2 * ((u - 2) * iv)) by (nonlinear_arith)
        requires x2 == i2 * u * pg;
    assert(((u * i2) * (u - 2)) * (iu * p0 + iv * pg) == ((u * i2) * (u - 2)) * (iu * p0) + ((u * i2) * (u
        - 2)) * (iv * pg)) by (nonlinear_arith);
    assert((-x1) * (u * iu - 1) == -(x1 * (u * iu)) + x1) by (nonlinear_arith);
    assert((-x2) * ((u - 2) * iv - 1) == -(x2 * ((u - 2) * iv)) + x2) by (nonlinear_arith);
    assert((u * i2) * (p0 + pg) == x1 + 2 * i2 * p0 + x2) by (nonlinear_arith)
        requires
            x1 == i2 * (u - 2) * p0,
            x2 == i2 * u * pg,
    ;
    assert(p0 * (2 * i2 - 1) == 2 * i2 * p0 - p0) by (nonlinear_arith);
}

/// The sums that the pad of slot `j` is made of, for the secret `x`.
spec fn sum_rp(cts: Seq<Ciphertext>, x: int) -> int {
    fsum(cts.len(), |k: int| ct1_dlogs(cts)[k] * pf(x, root_pow(cts.len(), k as nat)))
}

spec fn sum_mr(cts: Seq<Ciphertext>, j: int) -> int {
    fsum(cts.len(), |k: int| mcoef(cts.len(), j, k) * ct1_dlogs(cts)[k])
}

spec fn sum_mrp(cts: Seq<Ciphertext>, x: int, j: int) -> int {
    fsum(
        cts.len(),
        |k: int| mcoef(cts.len(), j, k) * (ct1_dlogs(cts)[k] * pf(x, root_pow(cts.len(), k as nat))),
    )
}

/// `s2 = ω^j/γ` and `s1 = s2·(ω^j − γ)`.
spec fn s2_of(n: nat, j: int) -> int {
    root_pow(n, j as nat) * inv(2)
}

spec fn s1_of(n: nat, j: int) -> int {
    s2_of(n, j) * (root_pow(n, j as nat) - 2)
}

/// For an honest batch, the pad is congruent to its unreduced form over the
/// sums.
#[verifier::spinoff_prover]
proof fn lemma_pad_unreduced(dk: DecryptionKey, sbk: int, cts: Seq<Ciphertext>, x: int, j: int)
    requires
        honest_batch(dk, sbk, cts, x),
        0 <= j < cts.len(),
    ensures
        md(dec_pad(dk, sbk, cts, j)) == md(cts[j].ct1.dlog() * ((pf(x, 0) + pf(x, 2)) * s2_of(cts.len(), j)
            - w_scalar(x, cts.len(), j) * s1_of(cts.len(), j)) + ((sum_rp(cts, x) + sum_mr(cts, j)) * (pf(
            x,
            root_pow(cts.len(), j as nat),
        ) * s1_of(cts.len(), j)) - sum_mrp(cts, x, j) * s1_of(cts.len(), j))),
{
    let n = cts.len();
    let c1 = cts[j].ct1.dlog();
    let s1 = s1_of(n, j);
    let s2 = s2_of(n, j);
    let pp = pf(x, 0) + pf(x, 2);
    let w = w_scalar(x, n, j);
    let pu = pf(x, root_pow(n, j as nat));
    let rs = ct1_dlogs(cts);
    let srp = sum_rp(cts, x);
    let smr = sum_mr(cts, j);
    let smrp = sum_mrp(cts, x, j);
    let e = (srp + smr) * (pu * s1) - smrp * s1;
    lemma_sbk_sum_fsum(x, cts, n, n);
    let pair = pair_dlogs(cts, dk.p2_vec@);
    let f_mp = |k: int| mcoef(n, j, k) * pair[k];
    let f_mrp = |k: int| mcoef(n, j, k) * (rs[k] * pf(x, root_pow(n, k as nat)));
    assert forall|k: int| 0 <= k < n implies md(#[trigger] f_mp(k)) == md(f_mrp(k)) by {
        lemma_md_small(rs[k] * pf(x, root_pow(n, k as nat)));
        lemma_cong_mul(mcoef(n, j, k), rs[k] * pf(x, root_pow(n, k as nat)), mcoef(n, j, k), pair[k]);
    }
    lemma_fsum_cong(n, f_mp, f_mrp);
    let cv1 = conv(rs, n, j);
    let cvt = conv(pair, n, j);
    lemma_md_small(fsum(n, f_mp));
    lemma_md_small(smr);
    lemma_md_small(pp);
    lemma_md_small(w);
    lemma_cong_mul(pp, s2, dk.p0_plus_pg_2.dlog(), s2);
    lemma_cong_mul(w, s1, dk.w_vec@[j].dlog(), s1);
    lemma_cong_sub(pp * s2, w * s1, dk.p0_plus_pg_2.dlog() * s2, dk.w_vec@[j].dlog() * s1);
    lemma_cong_mul(c1, pp * s2 - w * s1, c1, dk.p0_plus_pg_2.dlog() * s2 - dk.w_vec@[j].dlog() * s1);
    lemma_md_small(srp);
    lemma_cong_add(srp, smr, sbk, cv1);
    lemma_cong_mul(srp + smr, pu * s1, sbk + cv1, dk.p2_vec@[j].dlog() * s1);
    lemma_cong_mul(smrp, s1, cvt, s1);
    lemma_cong_sub((srp + smr) * (pu * s1), smrp * s1, (sbk + cv1) * (dk.p2_vec@[j].dlog() * s1), cvt
        * s1);
    lemma_cong_add(c1 * (pp * s2 - w * s1), e, c1 * (dk.p0_plus_pg_2.dlog() * s2 - dk.w_vec@[j].dlog()
        * s1), (sbk + cv1) * (dk.p2_vec@[j].dlog() * s1) - cvt * s1);
}

/// For an honest batch the cross terms of the pad leave only the diagonal:
/// `(Σ r_k p_k + Σ M_jk r_k)·p_u·s1 − Σ M_jk r_k p_k·s1 = s1·r_j·p_u²`.
#[verifier::spinoff_prover]
proof fn lemma_pad_cross(cts: Seq<Ciphertext>, x: int, j: int)
    requires
        valid_secret(x, cts.len()),
        is_pow2(cts.len()),
        primitive_root(root_of_unity(cts.len()) as int, cts.len()),
        md(pow(root_of_unity(cts.len()) as int, cts.len())) == 1,
        0 <= j < cts.len(),
    ensures
        md((sum_rp(cts, x) + sum_mr(cts, j)) * (pf(x, root_pow(cts.len(), j as nat)) * s1_of(cts.len(), j))
            - sum_mrp(cts, x, j) * s1_of(cts.len(), j)) == md(s1_of(cts.len(), j) * (cts[j].ct1.dlog() * (pf(
            x,
            root_pow(cts.len(), j as nat),
        ) * pf(x, root_pow(cts.len(), j as nat))))),
{
    let n = cts.len();
    let u = root_pow(n, j as nat);
    let pu = pf(x, u);
    let s1 = s1_of(n, j);
    let rs = ct1_dlogs(cts);
    let f_rp = |k: int| rs[k] * pf(x, root_pow(n, k as nat));
    let f_mr = |k: int| mcoef(n, j, k) * rs[k];
    let f_mrp = |k: int| mcoef(n, j, k) * (rs[k] * pf(x, root_pow(n, k as nat)));
    let b = |k: int| s1 * (rs[k] * (pu * pf(x, root_pow(n, k as nat)) + pu * mcoef(n, j, k) - mcoef(n, j, k) * pf(
        x,
        root_pow(n, k as nat),
    )));
    lemma_fsum_lin3(n, pu * s1, f_rp, pu * s1, f_mr, -s1, f_mrp);
    assert forall|k: int| 0 <= k < n implies #[trigger] b(k) == (pu * s1) * f_rp(k) + (pu * s1) * f_mr(k)
        + (-s1) * f_mrp(k) by {
        lemma_cross_identity(s1, rs[k], pf(x, root_pow(n, k as nat)), mcoef(n, j, k), pu);
    }
    lemma_fsum_ext(n, b, |k: int| (pu * s1) * f_rp(k) + (pu * s1) * f_mr(k) + (-s1) * f_mrp(k));
    let srp = sum_rp(cts, x);
    let smr = sum_mr(cts, j);
    let smrp = sum_mrp(cts, x, j);
    assert((pu * s1) * srp + (pu * s1) * smr + (-s1) * smrp == (srp + smr) * (pu * s1) - smrp * s1)
        by (nonlinear_arith);
    assert forall|k: int| 0 <= k < n && k != j implies md(#[trigger] b(k)) == 0 by {
        lemma_mcoef_inverse(n, j, k);
        lemma_cross_term(x, u, root_pow(n, k as nat), mcoef(n, j, k));
        lemma_vanishing_product(s1, rs[k], pu * pf(x, root_pow(n, k as nat)) + pu * mcoef(n, j, k) - mcoef(
            n,
            j,
            k,
        ) * pf(x, root_pow(n, k as nat)));
    }
    lemma_fsum_single(n, j, b);
    lemma_mcoef_diag(n, j);
    assert(b(j) == s1 * (rs[j] * (pu * pu)));
}

/// `s·(r·(pu·p + pu·m − m·p)) = (pu·s)·(r·p) + (pu·s)·(m·r) + (−s)·(m·(r·p))`.
proof fn lemma_cross_identity(s: int, r: int, p: int, m: int, pu: int)
    ensures
        s * (r * (pu * p + pu * m - m * p)) == (pu * s) * (r * p) + (pu * s) * (m * r) + (-s) * (m * (r
            * p)),
{
    let t = pu * p + pu * m - m * p;
    let sr = s * r;
    assert(s * (r * t) == sr * t) by (nonlinear_arith)
        requires
            sr == s * r,
    ;
    assert(sr * t == sr * (pu * p) + sr * (pu * m) - sr * (m * p)) by (nonlinear_arith)
        requires
            t == pu * p + pu * m - m * p,
    ;
    assert(sr * (pu * p) == (pu * s) * (r * p)) by (nonlinear_arith)
        requires
            sr == s * r,
    ;
    assert(sr * (pu * m) == (pu * s) * (m * r)) by (nonlinear_arith)
        requires
            sr == s * r,
    ;
    assert(sr * (m * p) == s * (m * (r * p))) by (nonlinear_arith)
        requires
            sr == s * r,
    ;
    assert((-s) * (m * (r * p)) == -(s * (m * (r * p)))) by (nonlinear_arith);
}

/// A product with a factor that vanishes modulo r vanishes modulo r.
proof fn lemma_vanishing_product(a: int, b: int, t: int)
    requires
        md(t) == 0,
    ensures
        md(a * (b * t)) == 0,
{
    lemma_md_mul(b, t);
    lemma_md_small(b);
    lemma_md_small(0);
    assert(md(md(b) * 0) == 0);
    lemma_md_mul(a, b * t);
    lemma_md_small(a);
    assert(md(md(a) * 0) == 0);
}

/// Decryption correctness: on a batch decrypted with the keys of the secret
/// `x`, the pad that [`decrypt`] removes from `ct_j[2]` is `r_j · p_0(x)`,
/// with `r_j` the discrete logarithm of `ct_j[1]`: exactly the pad that
/// [`encrypt`] added.
#[verifier::spinoff_prover]
pub proof fn lemma_dec_pad_honest(dk: DecryptionKey, sbk: int, cts: Seq<Ciphertext>, x: int, j: int)
    requires
        honest_batch(dk, sbk, cts, x),
        is_pow2(cts.len()),
        cts.len() <= pow2(32),
        primitive_root(root_of_unity(cts.len()) as int, cts.len()),
        md(pow(root_of_unity(cts.len()) as int, cts.len())) == 1,
        0 <= j < cts.len(),
    ensures
        md(dec_pad(dk, sbk, cts, j)) == md(cts[j].ct1.dlog() * pf(x, 0)),
{
    let n = cts.len();
    let u = root_pow(n, j as nat);
    let c1 = cts[j].ct1.dlog();
    let p0 = pf(x, 0);
    let pg = pf(x, 2);
    let pu = pf(x, u);
    let s1 = s1_of(n, j);
    let s2 = s2_of(n, j);
    let pp = p0 + pg;
    let w = w_scalar(x, n, j);
    let e = (sum_rp(cts, x) + sum_mr(cts, j)) * (pu * s1) - sum_mrp(cts, x, j) * s1;
    lemma_pad_unreduced(dk, sbk, cts, x, j);
    lemma_pad_cross(cts, x, j);
    lemma_root_pow_invertible(n, j as nat);
    lemma_root_minus_two_invertible(n, j as nat);
    lemma_pow2_invertible(1);
    lemma2_to64();
    let i2 = inv(2);
    let iu = inv(u);
    let iv = inv(u - 2);
    lemma_pad_scalar(u, i2, iu, iv, p0, pg);
    let q5 = s2 * pp - s1 * (iu * p0 + iv * pg);
    let t = s1 * (c1 * (pu * pu));
    assert(c1 * (pp * s2 - w * s1) + e == c1 * q5 + (e - t)) by (nonlinear_arith)
        requires
            w == pu * pu + iu * p0 + iv * pg,
            q5 == s2 * pp - s1 * (iu * p0 + iv * pg),
            t == s1 * (c1 * (pu * pu)),
    ;
    lemma_md_sub(e, t);
    lemma_md_small(t);
    lemma_md_small(0);
    lemma_cong_mul(c1, p0, c1, q5);
    lemma_cong_add(c1 * p0, 0, c1 * q5, e - t);
}


/// End to end: with the keys that setup makes from the secret `x`, a batch of
/// honest encryptions of the messages `ms` under them, and the pre-decryption
/// key that pre-decryption computes for the batch, the batch is honest for
/// `x` and removing `r_j · p_0(x)` from `ct_j[2]` gives back `ms[j]`: so
/// decryption returns the messages.
pub proof fn lemma_batch_roundtrip<H: nizk_dlog::TranscriptOracle>(
    o: SetupOutput,
    x: int,
    cts: Seq<Ciphertext>,
    ms: Seq<int>,
    sbk: int,
)
    requires
        keys_from_secret(o, x, cts.len()),
        valid_secret(x, cts.len()),
        ms.len() == cts.len(),
        forall|k: int| 0 <= k < ms.len() ==> 0 <= #[trigger] ms[k] < modulus(),
        forall|k: int| 0 <= k < cts.len() ==> #[trigger] honest_ciphertext::<H>(o.ek, ms[k], cts[k]),
        sbk == md(sbk_sum(x, cts, cts.len(), cts.len() as int)),
    ensures
        honest_batch(o.dk, sbk, cts, x),
        forall|j: int|
            0 <= j < cts.len() ==> md(cts[j].ct2.dlog() - cts[j].ct1.dlog() * pf(x, 0)) == #[trigger] ms[j],
{
    let n = cts.len();
    assert forall|j: int| 0 <= j < n implies md(cts[j].ct2.dlog() - cts[j].ct1.dlog() * pf(x, 0))
        == #[trigger] ms[j] by {
        assert(honest_ciphertext::<H>(o.ek, ms[j], cts[j]));
        let c = cts[j].ct1.dlog() * pf(x, 0);
        lemma_md_small(c + ms[j]);
        lemma_md_small(c);
        lemma_md_small(ms[j]);
        lemma_cong_sub(c + ms[j], c, cts[j].ct2.dlog(), c);
    }
}

} // verus!
