//! Correctness of decryption in Construction 1: on a batch of honest
//! ciphertexts decrypted with the keys of one secret, the pad that
//! decryption removes is the pad that encryption added.

use vstd::prelude::*;
use vstd::arithmetic::power::{pow, lemma_pow0};
use vstd::arithmetic::power2::{pow2, lemma2_to64};
use vstd::arithmetic::mul::lemma_mul_is_distributive_add;
use crate::field::{modulus, md, inv, lemma_md_small, lemma_md_sub, lemma_cong_add, lemma_cong_sub,
    lemma_cong_mul, lemma_invertible_from, lemma_unit_minus_one, lemma_combo, lemma_cong_of_diff,
    invertible};
use crate::group::GroupElem;
use crate::fft::{is_pow2, primitive_root, dlogs};
use crate::convolution::{fsum, lemma_fsum_ext, lemma_fsum_cong, lemma_fsum_lin5, lemma_fsum_scale,
    lemma_pow2_invertible};
use crate::partial_fractions::{root_of_unity, root_pow, pf, valid_secret, mcoef, conv,
    lemma_mcoef_inverse, lemma_mcoef_diag, lemma_mcoef_sum, lemma_cross_term, lemma_root_pow_inverse,
    lemma_root_minus_two_invertible, lemma_pf_identity};
use crate::batch_enc::{Ciphertext, DecryptionKey, SetupOutput, ct1_dlogs, pair_dlogs, sbk_sum, pf_sum,
    dec_pad, dec_coeff, keys_from_secret, honest_ciphertext};
use crate::nizk;

verus! {

/// The batch decrypted is honest for the secret `x`: the decryption key is
/// that of `x`, each `ct_k[2] = ct_k[1] · ek_sum` for the encryption key of
/// `x`, and `sbk` is the pre-decryption key of the batch under `x`.
pub open spec fn honest_batch(dk: DecryptionKey, sbk: int, cts: Seq<Ciphertext>, x: int) -> bool {
    let n = cts.len();
    &&& valid_secret(x, n)
    &&& dk.dk@.len() == n
    &&& forall|k: int| 0 <= k < n ==> #[trigger] dk.dk@[k].dlog() == pf(x, root_pow(n, k as nat))
    &&& dk.dk_sum.dlog() == md(pf_sum(x, n, n as int))
    &&& sbk == md(sbk_sum(x, cts, n, n as int))
    &&& forall|k: int|
        0 <= k < n ==> #[trigger] cts[k].ct2.dlog() == md(cts[k].ct1.dlog() * md(
            pf(x, 0) + pf(x, 2) + pf_sum(x, n, n as int),
        ))
}

/// `sbk_sum` is the sum of its terms.
proof fn lemma_sbk_sum_fsum(x: int, cts: Seq<Ciphertext>, n: nat, k: nat)
    requires
        k <= cts.len(),
    ensures
        sbk_sum(x, cts, n, k as int) == fsum(
            k,
            |i: int| ct1_dlogs(cts)[i] * pf(x, root_pow(n, i as nat)),
        ),
    decreases k,
{
    if k > 0 {
        lemma_sbk_sum_fsum(x, cts, n, (k - 1) as nat);
    }
}

/// `pf_sum` is the sum of its terms.
proof fn lemma_pf_sum_fsum(x: int, n: nat, k: nat)
    ensures
        pf_sum(x, n, k as int) == fsum(k, |i: int| pf(x, root_pow(n, i as nat))),
    decreases k,
{
    if k > 0 {
        lemma_pf_sum_fsum(x, n, (k - 1) as nat);
    }
}

/// The sums that the pad of slot `j` is made of, for the secret `x`.
spec fn sum_p(n: nat, x: int) -> int {
    fsum(n, |k: int| pf(x, root_pow(n, k as nat)))
}

spec fn sum_rp(cts: Seq<Ciphertext>, x: int) -> int {
    fsum(cts.len(), |k: int| ct1_dlogs(cts)[k] * pf(x, root_pow(cts.len(), k as nat)))
}

spec fn sum_mr(cts: Seq<Ciphertext>, j: int) -> int {
    fsum(cts.len(), |k: int| mcoef(cts.len(), j, k) * ct1_dlogs(cts)[k])
}

spec fn sum_mp(n: nat, x: int, j: int) -> int {
    fsum(n, |k: int| mcoef(n, j, k) * pf(x, root_pow(n, k as nat)))
}

spec fn sum_mrp(cts: Seq<Ciphertext>, x: int, j: int) -> int {
    fsum(
        cts.len(),
        |k: int| mcoef(cts.len(), j, k) * (ct1_dlogs(cts)[k] * pf(x, root_pow(cts.len(), k as nat))),
    )
}

/// `s2 = ω^j/γ` and `s1 = s2·(ω^j − γ)`.
spec fn s2_of(n: nat, j: int) -> int {
    root_pow(n, j as nat) * inv(2)
}

spec fn s1_of(n: nat, j: int) -> int {
    s2_of(n, j) * (root_pow(n, j as nat) - 2)
}

/// The pad of an honest batch, over unreduced sums.
spec fn pad_unreduced(cts: Seq<Ciphertext>, x: int, j: int) -> int {
    let n = cts.len();
    let c1 = cts[j].ct1.dlog();
    let e = pf(x, 0) + pf(x, 2) + sum_p(n, x);
    let s1 = s1_of(n, j);
    let s2 = s2_of(n, j);
    let a = c1 * e - sum_rp(cts, x) + c1 * dec_coeff(n, j) - sum_mr(cts, j);
    c1 * e * s2 + (-(a * s1)) * pf(x, root_pow(n, j as nat)) + c1 * (sum_mp(n, x, j) * s1 - sum_p(n, x)
        * s2) - sum_mrp(cts, x, j) * s1
}

/// For an honest batch, the pad is congruent to its form over the sums.
#[verifier::spinoff_prover]
proof fn lemma_pad_unreduced(dk: DecryptionKey, sbk: int, cts: Seq<Ciphertext>, x: int, j: int)
    requires
        honest_batch(dk, sbk, cts, x),
        0 <= j < cts.len(),
    ensures
        md(dec_pad(dk, sbk, cts, j)) == md(pad_unreduced(cts, x, j)),
{
    let n = cts.len();
    let c1 = cts[j].ct1.dlog();
    let c2 = cts[j].ct2.dlog();
    let s1 = s1_of(n, j);
    let s2 = s2_of(n, j);
    let pu = pf(x, root_pow(n, j as nat));
    let rs = ct1_dlogs(cts);
    let sp = sum_p(n, x);
    let srp = sum_rp(cts, x);
    let smr = sum_mr(cts, j);
    let smp = sum_mp(n, x, j);
    let smrp = sum_mrp(cts, x, j);
    let e = pf(x, 0) + pf(x, 2) + sp;
    let coeff = dec_coeff(n, j);
    lemma_sbk_sum_fsum(x, cts, n, n);
    lemma_pf_sum_fsum(x, n, n);
    // conv values by their sums
    let pair = pair_dlogs(cts, dk.dk@);
    let f_mt = |k: int| mcoef(n, j, k) * pair[k];
    let f_mrp = |k: int| mcoef(n, j, k) * (rs[k] * pf(x, root_pow(n, k as nat)));
    assert forall|k: int| 0 <= k < n implies md(#[trigger] f_mt(k)) == md(f_mrp(k)) by {
        lemma_md_small(rs[k] * pf(x, root_pow(n, k as nat)));
        lemma_cong_mul(mcoef(n, j, k), rs[k] * pf(x, root_pow(n, k as nat)), mcoef(n, j, k), pair[k]);
    }
    lemma_fsum_cong(n, f_mt, f_mrp);
    let dks = dlogs(dk.dk@);
    assert forall|k: int| 0 <= k < n implies #[trigger] (mcoef(n, j, k) * dks[k]) == mcoef(n, j, k) * pf(
        x,
        root_pow(n, k as nat),
    ) by {}
    lemma_fsum_ext(n, |k: int| mcoef(n, j, k) * dks[k], |k: int| mcoef(n, j, k) * pf(x, root_pow(n, k as nat)));
    let cv1 = conv(rs, n, j);
    let cv2 = conv(dks, n, j);
    let cvt = conv(pair, n, j);
    lemma_md_small(fsum(n, f_mt));
    lemma_md_small(smr);
    lemma_md_small(smp);
    lemma_md_small(srp);
    lemma_md_small(sp);
    lemma_md_small(e);
    // ct_j[2] ≡ c1·e
    lemma_cong_mul(c1, e, c1, md(e));
    lemma_md_small(c1 * md(e));
    assert(md(c2) == md(c1 * e));
    // A
    lemma_cong_sub(c1 * e, srp, c2, sbk);
    lemma_cong_add(c1 * e - srp, c1 * coeff, c2 - sbk, c1 * coeff);
    lemma_cong_sub(c1 * e - srp + c1 * coeff, smr, c2 - sbk + c1 * coeff, cv1);
    let a = c1 * e - srp + c1 * coeff - smr;
    let ae = c2 - sbk + c1 * coeff - cv1;
    lemma_cong_mul(a, s1, ae, s1);
    lemma_cong_sub(0, a * s1, 0, ae * s1);
    assert(-(a * s1) == 0 - a * s1);
    assert(-(ae * s1) == 0 - ae * s1);
    lemma_cong_mul(-(a * s1), pu, -(ae * s1), dk.dk@[j].dlog());
    // the other terms
    lemma_cong_mul(c1 * e, s2, c2, s2);
    lemma_cong_mul(smp, s1, cv2, s1);
    lemma_cong_mul(sp, s2, dk.dk_sum.dlog(), s2);
    lemma_cong_sub(smp * s1, sp * s2, cv2 * s1, dk.dk_sum.dlog() * s2);
    lemma_cong_mul(c1, smp * s1 - sp * s2, c1, cv2 * s1 - dk.dk_sum.dlog() * s2);
    lemma_cong_mul(smrp, s1, cvt, s1);
    lemma_cong_add(c1 * e * s2, (-(a * s1)) * pu, c2 * s2, (-(ae * s1)) * dk.dk@[j].dlog());
    lemma_cong_add(c1 * e * s2 + (-(a * s1)) * pu, c1 * (smp * s1 - sp * s2), c2 * s2 + (-(ae * s1))
        * dk.dk@[j].dlog(), c1 * (cv2 * s1 - dk.dk_sum.dlog() * s2));
    lemma_cong_sub(c1 * e * s2 + (-(a * s1)) * pu + c1 * (smp * s1 - sp * s2), smrp * s1, c2 * s2 + (-(ae
        * s1)) * dk.dk@[j].dlog() + c1 * (cv2 * s1 - dk.dk_sum.dlog() * s2), cvt * s1);
    assert(c1 * e * s2 == (c1 * e) * s2);
}

/// The bracketed cross terms of the pad, as one sum.
spec fn cross_bracket(cts: Seq<Ciphertext>, x: int, j: int) -> int {
    let n = cts.len();
    let c1 = cts[j].ct1.dlog();
    let s1 = s1_of(n, j);
    let pu = pf(x, root_pow(n, j as nat));
    (-(c1 * s1 * pu)) * sum_p(n, x) + (s1 * pu) * sum_rp(cts, x) + (s1 * pu) * sum_mr(cts, j) + (c1
        * s1) * sum_mp(n, x, j) + (-s1) * sum_mrp(cts, x, j)
}

/// `B_k − s1·c1·p_u·M_k = s1·r_k·T − s1·c1·T` with `T = p_u·p_k + p_u·M − M·p_k`.
proof fn lemma_cross_identity(s1: int, c1: int, pu: int, r: int, p: int, m: int)
    ensures
        (-(c1 * s1 * pu)) * p + (s1 * pu) * (r * p) + (s1 * pu) * (m * r) + (c1 * s1) * (m * p) + (-s1)
            * (m * (r * p)) - (s1 * c1 * pu) * m == s1 * (r * (pu * p + pu * m - m * p)) - s1 * (c1 * (pu
            * p + pu * m - m * p)),
{
    let t = pu * p + pu * m - m * p;
    lemma_distribute3(r, pu * p, pu * m, m * p);
    lemma_distribute3(s1, r * (pu * p), r * (pu * m), r * (m * p));
    lemma_distribute3(c1, pu * p, pu * m, m * p);
    lemma_distribute3(s1, c1 * (pu * p), c1 * (pu * m), c1 * (m * p));
    assert((s1 * pu) * (r * p) == s1 * (r * (pu * p))) by (nonlinear_arith);
    assert((s1 * pu) * (m * r) == s1 * (r * (pu * m))) by (nonlinear_arith);
    assert((-s1) * (m * (r * p)) == -(s1 * (r * (m * p)))) by (nonlinear_arith);
    assert((-(c1 * s1 * pu)) * p == -(s1 * (c1 * (pu * p)))) by (nonlinear_arith);
    assert((c1 * s1) * (m * p) == s1 * (c1 * (m * p))) by (nonlinear_arith);
    assert((s1 * c1 * pu) * m == s1 * (c1 * (pu * m))) by (nonlinear_arith);
}

/// `a·(x + y − z) = a·x + a·y − a·z`.
proof fn lemma_distribute3(a: int, x: int, y: int, z: int)
    ensures
        a * (x + y - z) == a * x + a * y - a * z,
{
    vstd::arithmetic::mul::lemma_mul_is_distributive_sub(a, x + y, z);
    lemma_mul_is_distributive_add(a, x, y);
}

/// The cross terms of an honest batch add up to `s1·c1·p_u·Σ_k M_jk`.
#[verifier::spinoff_prover]
proof fn lemma_pad_cross(cts: Seq<Ciphertext>, x: int, j: int)
    requires
        valid_secret(x, cts.len()),
        is_pow2(cts.len()),
        primitive_root(root_of_unity(cts.len()) as int, cts.len()),
        md(pow(root_of_unity(cts.len()) as int, cts.len())) == 1,
        0 <= j < cts.len(),
    ensures
        md(cross_bracket(cts, x, j)) == md(s1_of(cts.len(), j) * cts[j].ct1.dlog() * pf(
            x,
            root_pow(cts.len(), j as nat),
        ) * fsum(cts.len(), |k: int| mcoef(cts.len(), j, k))),
{
    let n = cts.len();
    let u = root_pow(n, j as nat);
    let c1 = cts[j].ct1.dlog();
    let pu = pf(x, u);
    let s1 = s1_of(n, j);
    let rs = ct1_dlogs(cts);
    let f_p = |k: int| pf(x, root_pow(n, k as nat));
    let f_rp = |k: int| rs[k] * pf(x, root_pow(n, k as nat));
    let f_mr = |k: int| mcoef(n, j, k) * rs[k];
    let f_mp = |k: int| mcoef(n, j, k) * pf(x, root_pow(n, k as nat));
    let f_mrp = |k: int| mcoef(n, j, k) * (rs[k] * pf(x, root_pow(n, k as nat)));
    let b = |k: int| (-(c1 * s1 * pu)) * f_p(k) + (s1 * pu) * f_rp(k) + (s1 * pu) * f_mr(k) + (c1 * s1)
        * f_mp(k) + (-s1) * f_mrp(k);
    lemma_fsum_lin5(n, -(c1 * s1 * pu), f_p, s1 * pu, f_rp, s1 * pu, f_mr, c1 * s1, f_mp, -s1, f_mrp);
    assert(fsum(n, b) == cross_bracket(cts, x, j));
    let g = |k: int| (s1 * c1 * pu) * mcoef(n, j, k);
    assert forall|k: int| 0 <= k < n implies md(#[trigger] b(k)) == md(g(k)) by {
        let p = pf(x, root_pow(n, k as nat));
        let m = mcoef(n, j, k);
        lemma_cross_identity(s1, c1, pu, rs[k], p, m);
        let t = pu * p + pu * m - m * p;
        if k == j {
            lemma_mcoef_diag(n, j);
            assert(b(k) - g(k) == 0);
        } else {
            lemma_mcoef_inverse(n, j, k);
            lemma_cross_term(x, u, root_pow(n, k as nat), m);
            assert(md(t) == 0);
            lemma_combo(s1 * rs[k], t, -(s1 * c1), t);
            assert(s1 * (rs[k] * t) - s1 * (c1 * t) == (s1 * rs[k]) * t + (-(s1 * c1)) * t)
                by (nonlinear_arith);
        }
        lemma_cong_of_diff(b(k), g(k));
    }
    lemma_fsum_cong(n, b, g);
    let fm = |k: int| mcoef(n, j, k);
    lemma_fsum_scale(n, s1 * c1 * pu, fm);
    lemma_fsum_ext(n, g, |i: int| (s1 * c1 * pu) * fm(i));
    assert(fsum(n, fm) == fsum(cts.len(), |k: int| mcoef(cts.len(), j, k)));
}

/// What is left of the pad once the cross terms cancel is `p_0`:
/// `s2·P − s1·p_u·P − s1·p_u·coeff + s1·p_u·(n − 1)/(2u) = p_0` for
/// `P = p_0 + p_γ`, `coeff = (n + 1)/(2u) + 1/(u − γ)`.
#[verifier::spinoff_prover]
proof fn lemma_pad_scalar(u: int, n: int, i2: int, iu: int, iv: int, p0: int, pg: int, pu: int)
    requires
        md(2 * i2) == 1,
        md(u * iu) == 1,
        md((u - 2) * iv) == 1,
        md(u * pu * p0 - (p0 - pu)) == 0,
        md((u - 2) * pu * pg - (pg - pu)) == 0,
    ensures
        md((u * i2) * (p0 + pg) - (u * i2 * (u - 2)) * pu * (p0 + pg) - (u * i2 * (u - 2)) * pu * (iu * ((n
            + 1) * i2) + iv) + (u * i2 * (u - 2)) * pu * ((n - 1) * i2 * iu)) == md(p0),
{
    let s2 = u * i2;
    let s1 = u * i2 * (u - 2);
    let t = s1 * pu;
    let pp = p0 + pg;
    let coeff = iu * ((n + 1) * i2) + iv;
    let q1 = s2 * pp - t * pp - t * coeff + t * ((n - 1) * i2 * iu);
    let qp = s2 * pp - t * (p0 + pg + iu + iv);
    let a1 = u * pu * p0 - (p0 - pu);
    let a2 = (u - 2) * pu * pg - (pg - pu);
    let a3 = u * iu - 1;
    let a4 = (u - 2) * iv - 1;
    let a5 = 2 * i2 - 1;
    assert(q1 - qp == (-(t * iu)) * a5) by (nonlinear_arith)
        requires
            pp == p0 + pg,
            q1 == s2 * pp - t * pp - t * coeff + t * ((n - 1) * i2 * iu),
            qp == s2 * pp - t * (p0 + pg + iu + iv),
            coeff == iu * ((n + 1) * i2) + iv,
            a5 == 2 * i2 - 1,
    ;
    // s1·p_u·(p0, pg, iu, iv) through the facts
    assert(t * p0 == (i2 * (u - 2)) * (u * pu * p0)) by (nonlinear_arith)
        requires
            t == u * i2 * (u - 2) * pu,
    ;
    assert(t * pg == (i2 * u) * ((u - 2) * pu * pg)) by (nonlinear_arith)
        requires
            t == u * i2 * (u - 2) * pu,
    ;
    assert(t * iu == (i2 * (u - 2) * pu) * (u * iu)) by (nonlinear_arith)
        requires
            t == u * i2 * (u - 2) * pu,
    ;
    assert(t * iv == (i2 * u * pu) * ((u - 2) * iv)) by (nonlinear_arith)
        requires
            t == u * i2 * (u - 2) * pu,
    ;
    assert(t * (p0 + pg + iu + iv) == t * p0 + t * pg + t * iu + t * iv) by (nonlinear_arith);
    assert(s2 * pp == u * i2 * p0 + u * i2 * pg) by (nonlinear_arith)
        requires
            s2 == u * i2,
            pp == p0 + pg,
    ;
    let c1 = -(i2 * (u - 2));
    let c2 = -(i2 * u);
    let c3 = -(i2 * (u - 2) * pu);
    let c4 = -(i2 * u * pu);
    assert(c1 * a1 == -((i2 * (u - 2)) * (u * pu * p0)) + i2 * (u - 2) * p0 - i2 * (u - 2) * pu)
        by (nonlinear_arith)
        requires
            c1 == -(i2 * (u - 2)),
            a1 == u * pu * p0 - (p0 - pu),
    ;
    assert(c2 * a2 == -((i2 * u) * ((u - 2) * pu * pg)) + i2 * u * pg - i2 * u * pu) by (nonlinear_arith)
        requires
            c2 == -(i2 * u),
            a2 == (u - 2) * pu * pg - (pg - pu),
    ;
    assert(c3 * a3 == -((i2 * (u - 2) * pu) * (u * iu)) + i2 * (u - 2) * pu) by (nonlinear_arith)
        requires
            c3 == -(i2 * (u - 2) * pu),
            a3 == u * iu - 1,
    ;
    assert(c4 * a4 == -((i2 * u * pu) * ((u - 2) * iv)) + i2 * u * pu) by (nonlinear_arith)
        requires
            c4 == -(i2 * u * pu),
            a4 == (u - 2) * iv - 1,
    ;
    assert(p0 * a5 == 2 * i2 * p0 - p0) by (nonlinear_arith)
        requires
            a5 == 2 * i2 - 1,
    ;
    assert(i2 * (u - 2) * p0 + 2 * i2 * p0 == u * i2 * p0) by (nonlinear_arith);
    assert(i2 * (u - 2) * pu + i2 * u * pu == i2 * (u - 2) * pu + i2 * u * pu);
    assert(i2 * u * pg == u * i2 * pg) by (nonlinear_arith);
    assert(qp - p0 == c1 * a1 + c2 * a2 + c3 * a3 + c4 * a4 + p0 * a5);
    // all the a's vanish
    lemma_unit_minus_one(u * iu);
    lemma_unit_minus_one((u - 2) * iv);
    lemma_unit_minus_one(2 * i2);
    lemma_combo(c1, a1, c2, a2);
    lemma_combo(c3, a3, c4, a4);
    lemma_combo(p0, a5, -(t * iu), a5);
    lemma_combo(1, c1 * a1 + c2 * a2, 1, c3 * a3 + c4 * a4);
    lemma_combo(1, c1 * a1 + c2 * a2 + (c3 * a3 + c4 * a4), 1, p0 * a5 + (-(t * iu)) * a5);
    assert(q1 - p0 == 1 * (c1 * a1 + c2 * a2 + (c3 * a3 + c4 * a4)) + 1 * (p0 * a5 + (-(t * iu)) * a5));
    lemma_cong_of_diff(q1, p0);
}

/// Regrouping the pad into its scalar part and its cross terms.
proof fn lemma_pad_regroup(
    c1: int,
    pp: int,
    sp: int,
    s1: int,
    s2: int,
    pu: int,
    srp: int,
    smr: int,
    smp: int,
    smrp: int,
    coeff: int,
)
    ensures
        c1 * (pp + sp) * s2 + (-((c1 * (pp + sp) - srp + c1 * coeff - smr) * s1)) * pu + c1 * (smp * s1
            - sp * s2) - smrp * s1 == c1 * (pp * s2 - pp * s1 * pu - coeff * s1 * pu) + ((-(c1 * s1 * pu))
            * sp + (s1 * pu) * srp + (s1 * pu) * smr + (c1 * s1) * smp + (-s1) * smrp),
{
    let a = c1 * (pp + sp) - srp + c1 * coeff - smr;
    assert(c1 * (pp + sp) * s2 == c1 * pp * s2 + c1 * sp * s2) by (nonlinear_arith);
    assert((-(a * s1)) * pu == -(c1 * (pp + sp) * s1 * pu) + srp * s1 * pu - c1 * coeff * s1 * pu + smr
        * s1 * pu) by (nonlinear_arith)
        requires
            a == c1 * (pp + sp) - srp + c1 * coeff - smr,
    ;
    assert(c1 * (pp + sp) * s1 * pu == c1 * pp * s1 * pu + c1 * sp * s1 * pu) by (nonlinear_arith);
    assert(c1 * (smp * s1 - sp * s2) == c1 * smp * s1 - c1 * sp * s2) by (nonlinear_arith);
    vstd::arithmetic::mul::lemma_mul_is_distributive_sub(c1, pp * s2 - pp * s1 * pu, coeff * s1 * pu);
    vstd::arithmetic::mul::lemma_mul_is_distributive_sub(c1, pp * s2, pp * s1 * pu);
    assert(c1 * (pp * s2) == c1 * pp * s2) by (nonlinear_arith);
    assert(c1 * (pp * s1 * pu) == c1 * pp * s1 * pu) by (nonlinear_arith);
    assert(c1 * (coeff * s1 * pu) == c1 * coeff * s1 * pu) by (nonlinear_arith);
    assert((-(c1 * s1 * pu)) * sp == -(c1 * sp * s1 * pu)) by (nonlinear_arith);
    assert((s1 * pu) * srp == srp * s1 * pu) by (nonlinear_arith);
    assert((s1 * pu) * smr == smr * s1 * pu) by (nonlinear_arith);
    assert((c1 * s1) * smp == c1 * smp * s1) by (nonlinear_arith);
    assert((-s1) * smrp == -(smrp * s1)) by (nonlinear_arith);
}

/// Decryption correctness: on an honest batch decrypted with the keys of the
/// secret `x`, the pad that [`decrypt`](crate::batch_enc::decrypt) removes
/// from `ct_j[3]` is `r_j · p_0(x)`, with `r_j` the discrete logarithm of
/// `ct_j[1]`: exactly the pad that encryption added.
#[verifier::spinoff_prover]
pub proof fn lemma_dec_pad_honest(dk: DecryptionKey, sbk: int, cts: Seq<Ciphertext>, x: int, j: int)
    requires
        honest_batch(dk, sbk, cts, x),
        is_pow2(cts.len()),
        cts.len() <= pow2(32),
        primitive_root(root_of_unity(cts.len()) as int, cts.len()),
        md(pow(root_of_unity(cts.len()) as int, cts.len())) == 1,
        0 <= j < cts.len(),
    ensures
        md(dec_pad(dk, sbk, cts, j)) == md(cts[j].ct1.dlog() * pf(x, 0)),
{
    let n = cts.len();
    let u = root_pow(n, j as nat);
    let c1 = cts[j].ct1.dlog();
    let p0 = pf(x, 0);
    let pg = pf(x, 2);
    let pu = pf(x, u);
    let s1 = s1_of(n, j);
    let s2 = s2_of(n, j);
    let pp = p0 + pg;
    let coeff = dec_coeff(n, j);
    let i2 = inv(2);
    let iu = inv(u);
    let iv = inv(u - 2);
    let summ = fsum(n, |k: int| mcoef(n, j, k));
    // the pad, regrouped
    lemma_pad_unreduced(dk, sbk, cts, x, j);
    lemma_pad_regroup(c1, pp, sum_p(n, x), s1, s2, pu, sum_rp(cts, x), sum_mr(cts, j), sum_mp(n, x, j),
        sum_mrp(cts, x, j), coeff);
    assert(pf(x, 0) + pf(x, 2) + sum_p(n, x) == pp + sum_p(n, x));
    let scal = pp * s2 - pp * s1 * pu - coeff * s1 * pu;
    let br = cross_bracket(cts, x, j);
    assert(md(dec_pad(dk, sbk, cts, j)) == md(c1 * scal + br));
    // the cross terms
    lemma_pad_cross(cts, x, j);
    // Σ_k M_jk = (n − 1)/(2u)
    lemma_pow2_invertible(1);
    lemma2_to64();
    if n >= 2 {
        lemma_mcoef_sum(n, j);
        lemma_root_pow_inverse(n, j as nat);
    } else {
        assert(summ == mcoef(n, j, 0)) by {
            reveal_with_fuel(fsum, 2);
        }
        lemma_mcoef_diag(n, j);
        lemma_pow0(root_of_unity(n) as int);
        lemma_md_small(1);
        lemma_invertible_from(1, 1);
        assert(n == 1 && j == 0);
        assert((n - 1) * i2 * iu == 0) by (nonlinear_arith)
            requires
                n == 1,
        ;
        assert(summ == 0);
    }
    assert(md(summ) == md((n - 1) * i2 * iu));
    lemma_root_minus_two_invertible(n, j as nat);
    // the facts on the partial fractions
    assert(invertible(x + 0) && invertible(x + 2) && invertible(x + u));
    lemma_pf_identity(x, u, 0);
    lemma_pf_identity(x, u, 2);
    lemma_md_sub((0 - u) * pu * p0, pu - p0);
    lemma_md_small(pu - p0);
    lemma_md_small((0 - u) * pu * p0);
    assert(u * pu * p0 - (p0 - pu) == (-1) * ((0 - u) * pu * p0 - (pu - p0)) + 0 * 0) by (nonlinear_arith);
    lemma_md_small(0);
    lemma_combo(-1, (0 - u) * pu * p0 - (pu - p0), 0, 0);
    lemma_md_sub((2 - u) * pu * pg, pu - pg);
    lemma_md_small(pu - pg);
    lemma_md_small((2 - u) * pu * pg);
    assert((u - 2) * pu * pg - (pg - pu) == (-1) * ((2 - u) * pu * pg - (pu - pg)) + 0 * 0)
        by (nonlinear_arith);
    lemma_combo(-1, (2 - u) * pu * pg - (pu - pg), 0, 0);
    lemma_pad_scalar(u, n as int, i2, iu, iv, p0, pg, pu);
    // combine: c1·scal + br ≡ c1·(scal + s1·p_u·(n − 1)/(2u)) = c1·q1 ≡ c1·p0
    let t = s1 * pu;
    let q1 = scal + t * ((n - 1) * i2 * iu);
    assert(s1 * c1 * pu * summ == c1 * (t * summ)) by (nonlinear_arith)
        requires
            t == s1 * pu,
    ;
    lemma_cong_mul(t, (n - 1) * i2 * iu, t, summ);
    lemma_cong_mul(c1, t * ((n - 1) * i2 * iu), c1, t * summ);
    lemma_cong_add(c1 * scal, c1 * (t * ((n - 1) * i2 * iu)), c1 * scal, br);
    assert(c1 * scal + c1 * (t * ((n - 1) * i2 * iu)) == c1 * q1) by (nonlinear_arith)
        requires
            q1 == scal + t * ((n - 1) * i2 * iu),
    ;
    assert(q1 == (u * i2) * (p0 + pg) - (u * i2 * (u - 2)) * pu * (p0 + pg) - (u * i2 * (u - 2)) * pu * (
    iu * ((n + 1) * i2) + iv) + (u * i2 * (u - 2)) * pu * ((n - 1) * i2 * iu)) by (nonlinear_arith)
        requires
            q1 == scal + t * ((n - 1) * i2 * iu),
            scal == pp * s2 - pp * s1 * pu - coeff * s1 * pu,
            t == s1 * pu,
            s2 == u * i2,
            s1 == s2 * (u - 2),
            pp == p0 + pg,
            coeff == iu * ((n + 1) * i2) + iv,
    ;
    lemma_cong_mul(c1, p0, c1, q1);
}

/// End to end: with the keys that setup makes from the secret `x`, a batch of
/// honest encryptions of the messages `ms` under them, and the pre-decryption
/// key that pre-decryption computes for the batch, the batch is honest for
/// `x` and removing `r_j · p_0(x)` from `ct_j[3]` gives back `ms[j]`: so
/// decryption returns the messages.
pub proof fn lemma_batch_roundtrip<H: nizk::TranscriptOracle>(
    o: SetupOutput,
    x: int,
    cts: Seq<Ciphertext>,
    ms: Seq<int>,
    sbk: int,
)
    requires
        keys_from_secret(o, x, cts.len()),
        valid_secret(x, cts.len()),
        ms.len() == cts.len(),
        forall|k: int| 0 <= k < ms.len() ==> 0 <= #[trigger] ms[k] < modulus(),
        forall|k: int| 0 <= k < cts.len() ==> #[trigger] honest_ciphertext::<H>(o.ek, ms[k], cts[k]),
        sbk == md(sbk_sum(x, cts, cts.len(), cts.len() as int)),
    ensures
        honest_batch(o.dk, sbk, cts, x),
        forall|j: int|
            0 <= j < cts.len() ==> md(cts[j].ct3.dlog() - cts[j].ct1.dlog() * pf(x, 0)) == #[trigger] ms[j],
{
    let n = cts.len();
    assert forall|k: int| 0 <= k < n implies #[trigger] cts[k].ct2.dlog() == md(cts[k].ct1.dlog() * md(
        pf(x, 0) + pf(x, 2) + pf_sum(x, n, n as int),
    )) by {
        assert(honest_ciphertext::<H>(o.ek, ms[k], cts[k]));
    }
    assert forall|j: int| 0 <= j < n implies md(cts[j].ct3.dlog() - cts[j].ct1.dlog() * pf(x, 0))
        == #[trigger] ms[j] by {
        assert(honest_ciphertext::<H>(o.ek, ms[j], cts[j]));
        let c = cts[j].ct1.dlog() * pf(x, 0);
        lemma_md_small(c + ms[j]);
        lemma_md_small(c);
        lemma_md_small(ms[j]);
        lemma_cong_sub(c + ms[j], c, cts[j].ct3.dlog(), c);
    }
}

} // verus!
