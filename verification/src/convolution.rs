//! Laws of the discrete Fourier transform over Fr: the inverse transform
//! undoes the transform, and the circulant product computed through the FFT
//! is the product with the circulant matrix.

use vstd::prelude::*;
use vstd::arithmetic::power::{pow, lemma_pow0, lemma_pow1, lemma_pow_adds, lemma_pow_multiplies,
    lemma_pow_distributes, lemma_pow_mod_noop, lemma1_pow, lemma_square_is_pow2};
use vstd::arithmetic::power2::{pow2, lemma_pow2_adds, lemma2_to64, lemma_pow2_pos};
use vstd::arithmetic::mul::{lemma_mul_is_distributive_add, lemma_mul_is_commutative};
use crate::field::{modulus, md, inv, lemma_md_add, lemma_md_mul, lemma_md_small, lemma_cong_add,
    lemma_cong_mul};
use crate::fft::{dsum, dft, is_pow2, primitive_root, pointwise, circulant_at};

verus! {

/// `Σ_{i<n} f(i)`.
pub open spec fn fsum(n: nat, f: spec_fn(int) -> int) -> int
    decreases n,
{
    if n == 0 {
        0
    } else {
        fsum((n - 1) as nat, f) + f(n - 1)
    }
}

/// Sums of pointwise equal terms are equal.
pub proof fn lemma_fsum_ext(n: nat, f: spec_fn(int) -> int, g: spec_fn(int) -> int)
    requires
        forall|i: int| 0 <= i < n ==> #[trigger] f(i) == g(i),
    ensures
        fsum(n, f) == fsum(n, g),
    decreases n,
{
    if n > 0 {
        lemma_fsum_ext((n - 1) as nat, f, g);
    }
}

/// Sums of pointwise congruent terms are congruent.
pub proof fn lemma_fsum_cong(n: nat, f: spec_fn(int) -> int, g: spec_fn(int) -> int)
    requires
        forall|i: int| 0 <= i < n ==> md(#[trigger] f(i)) == md(g(i)),
    ensures
        md(fsum(n, f)) == md(fsum(n, g)),
    decreases n,
{
    if n > 0 {
        lemma_fsum_cong((n - 1) as nat, f, g);
        lemma_cong_add(fsum((n - 1) as nat, g), g(n - 1), fsum((n - 1) as nat, f), f(n - 1));
    }
}

/// A sum of pointwise sums is the sum of the two sums.
pub proof fn lemma_fsum_add(n: nat, f: spec_fn(int) -> int, g: spec_fn(int) -> int)
    ensures
        fsum(n, |i: int| f(i) + g(i)) == fsum(n, f) + fsum(n, g),
    decreases n,
{
    if n > 0 {
        lemma_fsum_add((n - 1) as nat, f, g);
    }
}

/// A constant factor comes out of a sum.
pub proof fn lemma_fsum_scale(n: nat, c: int, f: spec_fn(int) -> int)
    ensures
        fsum(n, |i: int| c * f(i)) == c * fsum(n, f),
    decreases n,
{
    if n > 0 {
        lemma_fsum_scale((n - 1) as nat, c, f);
        lemma_mul_is_distributive_add(c, fsum((n - 1) as nat, f), f(n - 1));
    }
}

/// Splitting a sum after its first `a` terms.
pub proof fn lemma_fsum_split(a: nat, b: nat, f: spec_fn(int) -> int)
    ensures
        fsum(a + b, f) == fsum(a, f) + fsum(b, |i: int| f(a + i)),
    decreases b,
{
    if b > 0 {
        lemma_fsum_split(a, (b - 1) as nat, f);
        assert((a + b - 1) as nat == a + (b - 1) as nat);
    }
}

/// The order of a double sum can be exchanged.
pub proof fn lemma_fsum_swap(n: nat, m: nat, f: spec_fn(int, int) -> int)
    ensures
        fsum(n, |i: int| fsum(m, |k: int| f(i, k))) == fsum(m, |k: int| fsum(n, |i: int| f(i, k))),
    decreases n,
{
    if n > 0 {
        let n1 = (n - 1) as nat;
        lemma_fsum_swap(n1, m, f);
        let g = |k: int| fsum(n1, |i: int| f(i, k));
        let h = |k: int| f(n1 as int, k);
        lemma_fsum_add(m, g, h);
        let gh = |k: int| g(k) + h(k);
        let full = |k: int| fsum(n, |i: int| f(i, k));
        assert forall|k: int| 0 <= k < m implies #[trigger] full(k) == gh(k) by {
            assert(fsum(n, |i: int| f(i, k)) == fsum(n1, |i: int| f(i, k)) + f(n1 as int, k));
        }
        lemma_fsum_ext(m, full, gh);
        let outer = |i: int| fsum(m, |k: int| f(i, k));
        assert(fsum(n, outer) == fsum(n1, outer) + outer(n1 as int));
    } else {
        let z = |k: int| fsum(0, |i: int| f(i, k));
        lemma_fsum_of_zeros(m, z);
    }
}

/// A sum of zeros is zero.
pub proof fn lemma_fsum_of_zeros(n: nat, f: spec_fn(int) -> int)
    requires
        forall|i: int| 0 <= i < n ==> #[trigger] f(i) == 0,
    ensures
        fsum(n, f) == 0,
    decreases n,
{
    if n > 0 {
        lemma_fsum_of_zeros((n - 1) as nat, f);
    }
}

/// A sum whose terms vanish modulo r but at `j` is its term at `j`.
pub proof fn lemma_fsum_single(n: nat, j: int, f: spec_fn(int) -> int)
    requires
        0 <= j < n,
        forall|i: int| 0 <= i < n && i != j ==> md(#[trigger] f(i)) == 0,
    ensures
        md(fsum(n, f)) == md(f(j)),
    decreases n,
{
    let n1 = (n - 1) as nat;
    if j == n - 1 {
        lemma_fsum_zero(n1, f);
        lemma_md_add(fsum(n1, f), f(j));
        lemma_md_small(f(j));
    } else {
        lemma_fsum_single(n1, j, f);
        lemma_md_add(fsum(n1, f), f(n1 as int));
        lemma_md_small(fsum(n1, f));
        lemma_md_small(f(j));
    }
}

/// A sum of terms that all vanish modulo r vanishes modulo r.
pub proof fn lemma_fsum_zero(n: nat, f: spec_fn(int) -> int)
    requires
        forall|i: int| 0 <= i < n ==> md(#[trigger] f(i)) == 0,
    ensures
        md(fsum(n, f)) == 0,
    decreases n,
{
    lemma_md_small(0);
    if n > 0 {
        lemma_fsum_zero((n - 1) as nat, f);
        lemma_md_add(fsum((n - 1) as nat, f), f(n - 1));
    }
}

/// The geometric sum `Σ_{m<k} y^m`.
pub open spec fn geo(y: int, k: nat) -> int {
    fsum(k, |m: int| pow(y, m as nat))
}

/// `Σ_{m<2h} y^m = (1 + y^h) · Σ_{m<h} y^m`.
proof fn lemma_geo_double(y: int, h: nat)
    ensures
        geo(y, 2 * h) == (1 + pow(y, h)) * geo(y, h),
{
    let f = |m: int| pow(y, m as nat);
    lemma_fsum_split(h, h, f);
    assert forall|i: int| 0 <= i < h implies #[trigger] f(h + i) == pow(y, h) * f(i) by {
        lemma_pow_adds(y, h, i as nat);
        assert((h + i) as nat == h + i as nat);
    }
    lemma_fsum_ext(h, |i: int| f(h + i), |i: int| pow(y, h) * f(i));
    lemma_fsum_scale(h, pow(y, h), f);
    lemma_mul_is_distributive_add(geo(y, h), 1, pow(y, h));
    lemma_mul_is_commutative(geo(y, h), 1 + pow(y, h));
    lemma_mul_is_commutative(geo(y, h), pow(y, h));
    assert(h + h == 2 * h);
}

/// Orthogonality of the powers of a primitive `2^l`-th root of unity: for
/// `0 < t < 2^l`, `Σ_{m<2^l} w^(t·m) = 0`.
pub proof fn lemma_geo_vanishes(w: int, l: nat, t: nat)
    requires
        l >= 1,
        md(pow(w, pow2(l) / 2)) == modulus() - 1,
        0 < t < pow2(l),
    ensures
        md(geo(pow(w, t), pow2(l))) == 0,
    decreases l,
{
    lemma2_to64();
    lemma_pow2_adds(1, (l - 1) as nat);
    let h = pow2((l - 1) as nat);
    assert(pow2(l) == 2 * h);
    assert(pow2(l) / 2 == h);
    let y = pow(w, t);
    lemma_geo_double(y, h);
    lemma_md_mul(1 + pow(y, h), geo(y, h));
    if t % 2 == 1 {
        // y^h = (w^h)^t = (−1)^t = −1
        lemma_pow_multiplies(w, t, h);
        lemma_pow_multiplies(w, h, t);
        assert(t * h == h * t) by (nonlinear_arith);
        crate::fft::lemma_pow_neg_one_odd(pow(w, h), t);
        lemma_md_add(1, pow(y, h));
        lemma_md_small(1);
        assert(md(1 + pow(y, h)) == 0);
        lemma_md_small(geo(y, h));
        assert(md(0 * md(geo(y, h))) == 0);
    } else {
        if l == 1 {
            assert(false);
        }
        let t2 = (t / 2) as nat;
        let w2 = w * w;
        lemma_square_is_pow2(w);
        lemma_pow_multiplies(w, 2, t2);
        assert(2 * t2 == t);
        lemma_pow2_adds(1, (l - 2) as nat);
        lemma_pow_multiplies(w, 2, pow2((l - 2) as nat));
        assert(pow2((l - 1) as nat) / 2 == pow2((l - 2) as nat));
        assert(2 * pow2((l - 2) as nat) == pow2(l) / 2);
        lemma_geo_vanishes(w2, (l - 1) as nat, t2);
        lemma_md_small(1 + pow(y, h));
        assert(md(md(1 + pow(y, h)) * 0) == 0);
    }
}

/// A primitive `2^l`-th root of unity (`l ≥ 1`) has `w^(2^l) = 1` and is
/// invertible.
pub proof fn lemma_root_facts(w: int, l: nat)
    requires
        l >= 1,
        md(pow(w, pow2(l) / 2)) == modulus() - 1,
    ensures
        md(pow(w, pow2(l))) == 1,
        md(w * inv(w)) == 1,
        0 <= inv(w) < modulus(),
{
    let n = pow2(l);
    lemma2_to64();
    lemma_pow2_adds(1, (l - 1) as nat);
    let h = pow2((l - 1) as nat);
    assert(n == 2 * h);
    lemma_pow_adds(w, h, h);
    crate::field::lemma_cong_mul(modulus() - 1, modulus() - 1, pow(w, h), pow(w, h));
    assert(md((modulus() - 1) * (modulus() - 1)) == 1) by {
        assert((modulus() - 1) * (modulus() - 1) == modulus() * (modulus() - 2) + 1) by (nonlinear_arith);
        vstd::arithmetic::div_mod::lemma_mod_multiples_vanish(
            (modulus() - 2) as int,
            1,
            modulus() as int,
        );
        lemma_md_small(1);
    }
    assert(md(pow(w, n)) == 1);
    let wi = md(pow(w, (n - 1) as nat));
    lemma_pow_adds(w, 1, (n - 1) as nat);
    lemma_pow1(w);
    lemma_md_mul(w, pow(w, (n - 1) as nat));
    lemma_md_small(w);
    lemma_md_mul(w, wi);
    lemma_md_small(wi);
    crate::field::lemma_inv_unique(w, wi);
}

/// The terms `a_q · w^(q·m)` of the DFT of `a` at `m`.
pub open spec fn dft_term(a: Seq<int>, w: int, m: nat) -> spec_fn(int) -> int {
    |q: int| a[q] * pow(w, (q * m) as nat)
}

/// The DFT is the sum of its terms.
pub proof fn lemma_dsum_fsum(a: Seq<int>, s: nat, w: int, m: nat)
    ensures
        dsum(a, 0, 1, s, w, m) == fsum(s, dft_term(a, w, m)),
    decreases s,
{
    if s > 0 {
        let q = (s - 1) as nat;
        lemma_dsum_fsum(a, q, w, m);
        assert(0 + 1 * q == q);
        assert((q * m) as nat == q * m);
    }
}

/// `n` copies of 1 sum to `n`.
proof fn lemma_geo_one(n: nat)
    ensures
        geo(1, n) == n,
    decreases n,
{
    if n > 0 {
        lemma_geo_one((n - 1) as nat);
        lemma1_pow((n - 1) as nat);
    }
}

/// `w^q · w⁻ʳ = w^((q − r) mod n)` modulo r, for `w^n = 1`.
pub proof fn lemma_pow_shift(w: int, wi: int, n: nat, q: nat, r: nat)
    requires
        md(w * wi) == 1,
        md(pow(w, n)) == 1,
        q < n,
        r < n,
    ensures
        md(pow(w, q) * pow(wi, r)) == md(pow(w, if q >= r { (q - r) as nat } else { (q + n - r) as nat })),
{
    let t: nat = if q >= r { (q - r) as nat } else { (q + n - r) as nat };
    // (w·wi)^r = 1
    lemma_pow_distributes(w, wi, r);
    lemma_pow_mod_noop(w * wi, r, modulus() as int);
    lemma1_pow(r);
    lemma_md_small(1);
    assert(md(pow(w, r) * pow(wi, r)) == 1);
    let x = pow(w, t);
    let y = pow(w, r) * pow(wi, r);
    if q >= r {
        lemma_pow_adds(w, t, r);
        assert(pow(w, q) * pow(wi, r) == x * y) by (nonlinear_arith)
            requires
                pow(w, q) == pow(w, t) * pow(w, r),
                x == pow(w, t),
                y == pow(w, r) * pow(wi, r),
        ;
        lemma_md_mul(x, y);
        lemma_md_small(x);
    } else {
        lemma_pow_adds(w, t, r);
        lemma_pow_adds(w, q, n);
        assert(t + r == q + n);
        let p = pow(w, q) * pow(wi, r);
        assert(p * pow(w, n) == x * y) by (nonlinear_arith)
            requires
                pow(w, q) * pow(w, n) == pow(w, t) * pow(w, r),
                x == pow(w, t),
                y == pow(w, r) * pow(wi, r),
                p == pow(w, q) * pow(wi, r),
        ;
        lemma_md_mul(x, y);
        lemma_md_small(x);
        lemma_md_mul(p, pow(w, n));
        lemma_md_small(p);
    }
}

/// `w^(q·m) · w⁻^(m·r) = (w^((q − r) mod n))^m` modulo r.
proof fn lemma_pow_shift_m(w: int, wi: int, n: nat, q: nat, r: nat, m: nat)
    requires
        md(w * wi) == 1,
        md(pow(w, n)) == 1,
        q < n,
        r < n,
    ensures
        md(pow(w, q * m) * pow(wi, m * r)) == md(pow(
            pow(w, if q >= r { (q - r) as nat } else { (q + n - r) as nat }),
            m,
        )),
{
    let t: nat = if q >= r { (q - r) as nat } else { (q + n - r) as nat };
    lemma_pow_multiplies(w, q, m);
    lemma_pow_multiplies(wi, r, m);
    assert(r * m == m * r) by (nonlinear_arith);
    lemma_pow_distributes(pow(w, q), pow(wi, r), m);
    lemma_pow_shift(w, wi, n, q, r);
    lemma_pow_mod_noop(pow(w, q) * pow(wi, r), m, modulus() as int);
    lemma_pow_mod_noop(pow(w, t), m, modulus() as int);
}

/// `2^l` has the inverse `((r + 1)/2)^l` modulo r.
pub proof fn lemma_pow2_invertible(l: nat)
    ensures
        md(pow2(l) * inv(pow2(l) as int)) == 1,
        0 <= inv(pow2(l) as int) < modulus(),
    decreases l,
{
    let h: int = ((modulus() + 1) / 2) as int;
    assert(md(2 * h) == 1) by {
        lemma_md_small(1);
    }
    lemma_pow_distributes(2, h, l);
    lemma_pow_mod_noop(2 * h, l, modulus() as int);
    lemma1_pow(l);
    lemma_md_small(1);
    vstd::arithmetic::power2::lemma_pow2(l);
    lemma_md_mul(pow(2, l), pow(h, l));
    lemma_md_small(pow(h, l));
    lemma_md_small(pow(2, l));
    assert(md(pow(2, l) * md(pow(h, l))) == 1) by {
        lemma_md_mul(pow(2, l), md(pow(h, l)));
    }
    crate::field::lemma_inv_unique(pow2(l) as int, md(pow(h, l)));
}

/// The terms `w⁻^(m·r) · a_q · w^(q·m)` of the inverse transform of the
/// transform of `a`, at `r`, indexed by frequency `m` and position `q`.
spec fn round_term(a: Seq<int>, w: int, wi: int, r: nat) -> spec_fn(int, int) -> int {
    |m: int, q: int| pow(wi, (m * r) as nat) * (a[q] * pow(w, (q * m) as nat))
}

/// Summing the round terms over the frequencies leaves `n·a_r` at `q = r`
/// and nothing elsewhere.
proof fn lemma_round_column(a: Seq<int>, w: int, wi: int, l: nat, r: nat, q: nat)
    requires
        l >= 1,
        a.len() == pow2(l),
        md(pow(w, pow2(l) / 2)) == modulus() - 1,
        md(pow(w, pow2(l))) == 1,
        md(w * wi) == 1,
        r < pow2(l),
        q < pow2(l),
    ensures
        md(fsum(a.len(), |m: int| round_term(a, w, wi, r)(m, q as int))) == (if q == r {
            md(a[q as int] * pow2(l))
        } else {
            0
        }),
{
    let n = a.len();
    let t: nat = if q >= r { (q - r) as nat } else { (q + n - r) as nat };
    let col = |m: int| round_term(a, w, wi, r)(m, q as int);
    let prod = |m: int| pow(w, (q * m) as nat) * pow(wi, (m * r) as nat);
    assert forall|m: int| 0 <= m < n implies #[trigger] col(m) == a[q as int] * prod(m) by {
        let x = pow(wi, (m * r) as nat);
        let y = pow(w, (q * m) as nat);
        assert(x * (a[q as int] * y) == a[q as int] * (y * x)) by (nonlinear_arith);
    }
    lemma_fsum_ext(n, col, |m: int| a[q as int] * prod(m));
    lemma_fsum_scale(n, a[q as int], prod);
    let gy = |m: int| pow(pow(w, t), m as nat);
    assert forall|m: int| 0 <= m < n implies md(#[trigger] prod(m)) == md(gy(m)) by {
        lemma_pow_shift_m(w, wi, n, q, r, m as nat);
        assert((q * m) as nat == q * (m as nat));
        assert((m * r) as nat == (m as nat) * r);
    }
    lemma_fsum_cong(n, prod, gy);
    lemma_md_mul(a[q as int], fsum(n, prod));
    if q == r {
        lemma_pow0(w);
        lemma_geo_one(n);
        lemma_md_mul(a[q as int], n as int);
        assert(md(fsum(n, prod)) == md(n as int));
    } else {
        assert(0 < t < n);
        lemma_geo_vanishes(w, l, t);
        lemma_md_small(0);
        assert(md(fsum(n, prod)) == 0);
        assert(md(md(a[q as int]) * 0) == 0);
    }
}

/// The inverse transform undoes the transform: for `w` a primitive `n`-th
/// root of unity (`n` a power of two) and entries in `[0, r)`, the inverse
/// DFT (root `w⁻¹`, scaled by `n⁻¹`) of the DFT (root `w`) of `a` is `a`.
pub proof fn lemma_fft_roundtrip(a: Seq<int>, w: int, r: nat)
    requires
        is_pow2(a.len()),
        primitive_root(w, a.len()),
        r < a.len(),
        forall|i: int| 0 <= i < a.len() ==> 0 <= #[trigger] a[i] < modulus(),
    ensures
        md(inv(a.len() as int) * dft(
            Seq::new(a.len(), |m: int| md(dft(a, w, m as nat))),
            inv(w),
            r,
        )) == a[r as int],
{
    let n = a.len();
    let l = choose|l: nat| pow2(l) == n;
    let big_a = Seq::new(n, |m: int| md(dft(a, w, m as nat)));
    lemma_pow2_invertible(l);
    if l == 0 {
        lemma2_to64();
        assert(n == 1);
        lemma_dsum_fsum(big_a, 1, inv(w), r);
        lemma_dsum_fsum(a, 1, w, 0);
        assert(r == 0);
        lemma_pow0(w);
        lemma_pow0(inv(w));
        reveal_with_fuel(fsum, 2);
        assert(dft_term(a, w, 0)(0) == a[0] * pow(w, 0));
        assert(dft_term(big_a, inv(w), 0)(0) == big_a[0] * pow(inv(w), 0));
        assert(fsum(1, dft_term(a, w, 0)) == a[0]);
        assert(fsum(1, dft_term(big_a, inv(w), 0)) == big_a[0]);
        lemma_md_small(a[0]);
        lemma_md_small(1);
        crate::field::lemma_inv_unique(1, 1);
        return;
    }
    lemma2_to64();
    lemma_pow2_adds(1, (l - 1) as nat);
    lemma_pow2_pos((l - 1) as nat);
    lemma_root_facts(w, l);
    let wi = inv(w);
    // the transform, then the inverse transform, as a double sum
    let f = round_term(a, w, wi, r);
    lemma_dsum_fsum(big_a, n, wi, r);
    let outer = dft_term(big_a, wi, r);
    let rows = |m: int| fsum(n, |q: int| f(m, q));
    assert forall|m: int| 0 <= m < n implies md(#[trigger] outer(m)) == md(rows(m)) by {
        lemma_dsum_fsum(a, n, w, m as nat);
        let p = pow(wi, (m * r) as nat);
        let d = dft(a, w, m as nat);
        lemma_fsum_scale(n, p, dft_term(a, w, m as nat));
        lemma_fsum_ext(
            n,
            |q: int| p * dft_term(a, w, m as nat)(q),
            |q: int| f(m, q),
        );
        lemma_md_small(d);
        crate::field::lemma_cong_mul(d, p, md(d), p);
        assert(d * p == p * d) by (nonlinear_arith);
    }
    lemma_fsum_cong(n, outer, rows);
    lemma_fsum_swap(n, n, f);
    let cols = |q: int| fsum(n, |m: int| f(m, q));
    assert forall|q: int| 0 <= q < n && q != r implies md(#[trigger] cols(q)) == 0 by {
        lemma_round_column(a, w, wi, l, r, q as nat);
    }
    lemma_fsum_single(n, r as int, cols);
    lemma_round_column(a, w, wi, l, r, r);
    // n⁻¹ · (n · a_r) = a_r
    let ni = inv(n as int);
    let s = fsum(n, cols);
    lemma_md_mul(ni, dft(big_a, wi, r));
    lemma_md_mul(ni, s);
    lemma_md_small(ni);
    lemma_md_mul(ni, a[r as int] * n);
    assert(ni * (a[r as int] * n) == a[r as int] * (n * ni)) by (nonlinear_arith);
    lemma_md_mul(a[r as int], n * ni);
    lemma_md_small(a[r as int]);
}

/// The cyclic convolution `(d ⊛ a)_t = Σ_k d_((t − k) mod n) · a_k`, reduced.
pub open spec fn cyclic_conv(d: Seq<int>, a: Seq<int>, t: int) -> int {
    md(fsum(a.len(), |k: int| d[(t + a.len() - k) % (a.len() as int)] * a[k]))
}

/// `(i + n) mod n = i` and `(i + n − k) mod n = i + n − k` in range.
proof fn lemma_mod_in_range(x: int, n: int, q: int)
    requires
        n > 0,
        q * n <= x < q * n + n,
    ensures
        x % n == x - q * n,
{
    crate::fft::lemma_divmod_unique(x, n, q, x - q * n);
}

/// Multiplying the powers of a DFT sum by `w^(k·m)` shifts its entries
/// cyclically by `k`, for `w^n = 1`.
proof fn lemma_shift_sum(d: Seq<int>, w: int, n: nat, k: nat, m: nat)
    requires
        d.len() == n,
        k < n,
        md(pow(w, n)) == 1,
    ensures
        md(fsum(n, |s: int| d[s] * pow(w, ((s + k) * m) as nat))) == md(fsum(
            n,
            |t: int| d[(t + n - k) % (n as int)] * pow(w, (t * m) as nat),
        )),
{
    let f = |s: int| d[s] * pow(w, ((s + k) * m) as nat);
    let g = |t: int| d[(t + n - k) % (n as int)] * pow(w, (t * m) as nat);
    let nk = (n - k) as nat;
    lemma_fsum_split(nk, k, f);
    lemma_fsum_split(k, nk, g);
    assert(nk + k == n);
    assert(k + nk == n);
    // the first n − k entries of f are the last n − k of g
    assert forall|i: int| 0 <= i < nk implies #[trigger] f(i) == g(k + i) by {
        lemma_mod_in_range(k + i + n - k, n as int, 1);
        assert(i + k == k + i);
    }
    lemma_fsum_ext(nk, f, |i: int| g(k + i));
    // the last k entries of f are the first k of g, as w^(n·m) = 1
    lemma_pow_multiplies(w, n, m);
    lemma_pow_mod_noop(pow(w, n), m, modulus() as int);
    lemma1_pow(m);
    lemma_md_small(1);
    assert(md(pow(w, n * m)) == 1);
    assert forall|i: int| 0 <= i < k implies md(#[trigger] f(nk + i)) == md(g(i)) by {
        lemma_mod_in_range(i + n - k, n as int, 0);
        let e1 = (i * m) as nat;
        assert(((nk + i + k) * m) as nat == n * m + e1) by (nonlinear_arith)
            requires
                nk + k == n,
                i >= 0,
                e1 == i * m,
        ;
        lemma_pow_adds(w, n * m, e1);
        let x = d[nk + i];
        assert(x * (pow(w, n * m) * pow(w, e1)) == pow(w, n * m) * (x * pow(w, e1))) by (nonlinear_arith);
        lemma_md_mul(pow(w, n * m), x * pow(w, e1));
        lemma_md_small(x * pow(w, e1));
    }
    lemma_fsum_cong(k, |i: int| f(nk + i), g);
    lemma_cong_add(fsum(k, g), fsum(nk, |i: int| g(k + i)), fsum(k, |i: int| f(nk + i)), fsum(nk, f));
}

/// The convolution theorem: the product of the DFTs of `d` and `a` is the DFT
/// of their cyclic convolution, modulo r, for `w^n = 1`.
pub proof fn lemma_conv_forward(d: Seq<int>, a: Seq<int>, w: int, m: nat)
    requires
        d.len() == a.len(),
        md(pow(w, a.len())) == 1,
    ensures
        md(dft(d, w, m) * dft(a, w, m)) == md(dft(
            Seq::new(a.len(), |t: int| cyclic_conv(d, a, t)),
            w,
            m,
        )),
{
    let n = a.len();
    let c = Seq::new(n, |t: int| cyclic_conv(d, a, t));
    lemma_dsum_fsum(d, n, w, m);
    lemma_dsum_fsum(a, n, w, m);
    lemma_dsum_fsum(c, n, w, m);
    let sd = fsum(n, dft_term(d, w, m));
    let ta = dft_term(a, w, m);
    // sd · Σ_k ta(k) = Σ_k sd · ta(k)
    lemma_fsum_scale(n, sd, ta);
    let h = |k: int, t: int| a[k] * (d[(t + n - k) % (n as int)] * pow(w, (t * m) as nat));
    let rows = |k: int| fsum(n, |t: int| h(k, t));
    assert forall|k: int| 0 <= k < n implies md(#[trigger] (sd * ta(k))) == md(rows(k)) by {
        let pk = pow(w, (k * m) as nat);
        let fk = |s: int| d[s] * pow(w, ((s + k) * m) as nat);
        let gk = |t: int| d[(t + n - k) % (n as int)] * pow(w, (t * m) as nat);
        // pk · sd = Σ_s d_s · w^((s+k)·m)
        lemma_fsum_scale(n, pk, dft_term(d, w, m));
        assert forall|s: int| 0 <= s < n implies #[trigger] fk(s) == pk * dft_term(d, w, m)(s) by {
            lemma_pow_adds(w, (s * m) as nat, (k * m) as nat);
            assert(((s + k) * m) as nat == (s * m) as nat + (k * m) as nat) by (nonlinear_arith)
                requires
                    0 <= s,
                    0 <= k,
            ;
            assert(d[s] * (pow(w, (s * m) as nat) * pk) == pk * (d[s] * pow(w, (s * m) as nat))) by (nonlinear_arith);
        }
        lemma_fsum_ext(n, fk, |s: int| pk * dft_term(d, w, m)(s));
        lemma_shift_sum(d, w, n, k as nat, m);
        // a_k · Σ_t gk(t) = Σ_t h(k, t)
        lemma_fsum_scale(n, a[k], gk);
        lemma_fsum_ext(n, |t: int| a[k] * gk(t), |t: int| h(k, t));
        assert(sd * ta(k) == a[k] * (pk * sd)) by (nonlinear_arith)
            requires
                ta(k) == a[k] * pk,
        ;
        crate::field::lemma_cong_mul(a[k], fsum(n, gk), a[k], pk * sd);
    }
    lemma_fsum_cong(n, |k: int| sd * ta(k), rows);
    lemma_fsum_swap(n, n, h);
    let cols = |t: int| fsum(n, |k: int| h(k, t));
    let tc = dft_term(c, w, m);
    assert forall|t: int| 0 <= t < n implies md(#[trigger] cols(t)) == md(tc(t)) by {
        let pt = pow(w, (t * m) as nat);
        let conv_t = |k: int| d[(t + n - k) % (n as int)] * a[k];
        lemma_fsum_scale(n, pt, conv_t);
        assert forall|k: int| 0 <= k < n implies #[trigger] h(k, t) == pt * conv_t(k) by {
            let dd = d[(t + n - k) % (n as int)];
            assert(a[k] * (dd * pt) == pt * (dd * a[k])) by (nonlinear_arith);
        }
        lemma_fsum_ext(n, |k: int| h(k, t), |k: int| pt * conv_t(k));
        lemma_md_small(fsum(n, conv_t));
        crate::field::lemma_cong_mul(fsum(n, conv_t), pt, c[t], pt);
        assert(pt * fsum(n, conv_t) == fsum(n, conv_t) * pt) by (nonlinear_arith);
    }
    lemma_fsum_cong(n, cols, tc);
    lemma_md_mul(sd, fsum(n, ta));
}

/// The circulant product computed through the FFT is the product with the
/// circulant matrix: for `d_hat` the DFT of the kernel `d`,
/// `circulant_at(d_hat, a, w, j) = w^(−j) · Σ_k d_((j − k) mod n) · a_k`,
/// for `w` a primitive `n`-th root of unity and entries of `a` in `[0, r)`.
pub proof fn lemma_circulant_law(d: Seq<int>, a: Seq<int>, w: int, j: nat)
    requires
        d.len() == a.len(),
        is_pow2(a.len()),
        primitive_root(w, a.len()),
        md(pow(w, a.len())) == 1,
        j < a.len(),
        forall|i: int| 0 <= i < a.len() ==> 0 <= #[trigger] a[i] < modulus(),
    ensures
        circulant_at(Seq::new(a.len(), |m: int| md(dft(d, w, m as nat))), a, w, j) == md(pow(inv(w), j)
            * cyclic_conv(d, a, j as int)),
{
    let n = a.len();
    let d_hat = Seq::new(n, |m: int| md(dft(d, w, m as nat)));
    let c = Seq::new(n, |t: int| cyclic_conv(d, a, t));
    let c_hat = Seq::new(n, |m: int| md(dft(c, w, m as nat)));
    assert forall|m: int| 0 <= m < n implies #[trigger] pointwise(d_hat, a, w)[m] == c_hat[m] by {
        lemma_conv_forward(d, a, w, m as nat);
        lemma_md_small(dft(d, w, m as nat));
        crate::field::lemma_cong_mul(dft(d, w, m as nat), dft(a, w, m as nat), d_hat[m], dft(a, w, m as nat));
    }
    assert(pointwise(d_hat, a, w) =~= c_hat);
    assert forall|i: int| 0 <= i < n implies 0 <= #[trigger] c[i] < modulus() by {
        lemma_md_small(fsum(n, |k: int| d[(i + n - k) % (n as int)] * a[k]));
    }
    lemma_fft_roundtrip(c, w, j);
}

/// Sums are linear: `Σ (a·f + b·g) = a·Σ f + b·Σ g`.
pub proof fn lemma_fsum_lin(n: nat, a: int, f: spec_fn(int) -> int, b: int, g: spec_fn(int) -> int)
    ensures
        fsum(n, |k: int| a * f(k) + b * g(k)) == a * fsum(n, f) + b * fsum(n, g),
    decreases n,
{
    if n > 0 {
        let n1 = (n - 1) as nat;
        lemma_fsum_lin(n1, a, f, b, g);
        let sf = fsum(n1, f);
        let sg = fsum(n1, g);
        let x = f(n1 as int);
        let y = g(n1 as int);
        assert(a * sf + b * sg + (a * x + b * y) == a * (sf + x) + b * (sg + y)) by (nonlinear_arith);
    }
}

/// Sums are linear in three terms.
pub proof fn lemma_fsum_lin3(
    n: nat,
    a: int,
    f: spec_fn(int) -> int,
    b: int,
    g: spec_fn(int) -> int,
    c: int,
    h: spec_fn(int) -> int,
)
    ensures
        fsum(n, |k: int| a * f(k) + b * g(k) + c * h(k)) == a * fsum(n, f) + b * fsum(n, g) + c * fsum(
            n,
            h,
        ),
    decreases n,
{
    if n > 0 {
        let n1 = (n - 1) as nat;
        lemma_fsum_lin3(n1, a, f, b, g, c, h);
        let sf = fsum(n1, f);
        let sg = fsum(n1, g);
        let sh = fsum(n1, h);
        let x = f(n1 as int);
        let y = g(n1 as int);
        let z = h(n1 as int);
        assert(a * sf + b * sg + c * sh + (a * x + b * y + c * z) == a * (sf + x) + b * (sg + y) + c * (sh
            + z)) by (nonlinear_arith);
    }
}

/// Sums are linear in five terms.
pub proof fn lemma_fsum_lin5(
    n: nat,
    a: int,
    f: spec_fn(int) -> int,
    b: int,
    g: spec_fn(int) -> int,
    c: int,
    h: spec_fn(int) -> int,
    d: int,
    p: spec_fn(int) -> int,
    e: int,
    q: spec_fn(int) -> int,
)
    ensures
        fsum(n, |k: int| a * f(k) + b * g(k) + c * h(k) + d * p(k) + e * q(k)) == a * fsum(n, f) + b
            * fsum(n, g) + c * fsum(n, h) + d * fsum(n, p) + e * fsum(n, q),
    decreases n,
{
    if n > 0 {
        let n1 = (n - 1) as nat;
        lemma_fsum_lin5(n1, a, f, b, g, c, h, d, p, e, q);
        let k = n1 as int;
        lemma_mul_is_distributive_add(a, fsum(n1, f), f(k));
        lemma_mul_is_distributive_add(b, fsum(n1, g), g(k));
        lemma_mul_is_distributive_add(c, fsum(n1, h), h(k));
        lemma_mul_is_distributive_add(d, fsum(n1, p), p(k));
        lemma_mul_is_distributive_add(e, fsum(n1, q), q(k));
    }
}

} // verus!
