//! Radix-2 FFT over the field and the groups, and the circulant
//! matrix-vector product built on it.

use vstd::prelude::*;
use vstd::arithmetic::power::{pow, lemma_pow_distributes, lemma_pow_adds, lemma_pow_multiplies,
    lemma_pow_mod_noop, lemma_square_is_pow2, lemma_pow0, lemma_pow1, lemma1_pow};
use vstd::arithmetic::power2::{pow2, lemma_pow2_pos, lemma_pow2_adds, lemma2_to64};
use vstd::arithmetic::div_mod::{lemma_small_mod};

use crate::field::{Scalar, modulus, md, inv, lemma_inv_unique, lemma_md_add, lemma_md_sub,
    lemma_md_mul, lemma_md_small, lemma_md_mul_neg_one};
use crate::group::GroupElem;
use crate::bits::{rev, reverse_bits, lemma_rev_bound, lemma_rev_involution};

verus! {

/// `Σ_{q < s} a[c + st·q] · w^(q·m)`: the size-`s` DFT, at frequency `m`,
/// of the subsequence of `a` that starts at `c` with stride `st`.
pub open spec fn dsum(a: Seq<int>, c: int, st: int, s: nat, w: int, m: nat) -> int
    decreases s,
{
    if s == 0 {
        0
    } else {
        let q = (s - 1) as nat;
        dsum(a, c, st, q, w, m) + a[c + st * q] * pow(w, q * m)
    }
}

/// `Σ_r a[r] · w^(r·m)`: the discrete Fourier transform of `a` at `m`.
pub open spec fn dft(a: Seq<int>, w: int, m: nat) -> int {
    dsum(a, 0, 1, a.len(), w, m)
}

/// The discrete logarithms of a sequence of elements.
pub open spec fn dlogs<G: GroupElem>(s: Seq<G>) -> Seq<int> {
    s.map_values(|g: G| g.dlog() as int)
}

/// `w` is a primitive `n`-th root of unity modulo r, for `n` a power of two:
/// `w^(n/2) = -1`.
pub open spec fn primitive_root(w: int, n: nat) -> bool {
    n >= 2 ==> md(pow(w, n / 2)) == modulus() - 1
}

/// Splitting a DFT into its even- and odd-indexed halves.
proof fn lemma_dsum_split(a: Seq<int>, c: int, st: int, h: nat, w: int, m: nat)
    ensures
        dsum(a, c, st, 2 * h, w, m) == dsum(a, c, 2 * st, h, w * w, m) + pow(w, m) * dsum(
            a,
            c + st,
            2 * st,
            h,
            w * w,
            m,
        ),
    decreases h,
{
    if h > 0 {
        let h1 = (h - 1) as nat;
        lemma_dsum_split(a, c, st, h1, w, m);
        let e0 = (2 * h1) as nat;
        let e1 = (2 * h1 + 1) as nat;
        assert(2 * h == e1 + 1);
        assert(dsum(a, c, st, 2 * h, w, m) == dsum(a, c, st, e1, w, m) + a[c + st * e1] * pow(
            w,
            e1 * m,
        ));
        assert(dsum(a, c, st, e1, w, m) == dsum(a, c, st, e0, w, m) + a[c + st * e0] * pow(
            w,
            e0 * m,
        ));
        lemma_square_is_pow2(w);
        lemma_pow_multiplies(w, 2, h1 * m);
        assert(e0 * m == 2 * (h1 * m)) by (nonlinear_arith)
            requires
                e0 == 2 * h1,
        ;
        assert(e1 * m == m + e0 * m) by (nonlinear_arith)
            requires
                e1 == e0 + 1,
        ;
        lemma_pow_adds(w, m, e0 * m);
        assert(st * e0 == 2 * st * h1) by (nonlinear_arith)
            requires
                e0 == 2 * h1,
        ;
        assert(st * e1 == st + 2 * st * h1) by (nonlinear_arith)
            requires
                e1 == 2 * h1 + 1,
        ;
        let ev = dsum(a, c, 2 * st, h1, w * w, m);
        let od = dsum(a, c + st, 2 * st, h1, w * w, m);
        let p = pow(w * w, h1 * m);
        assert(pow(w, e0 * m) == p);
        assert(pow(w, e1 * m) == pow(w, m) * p);
        assert(a[c + st * e1] * (pow(w, m) * p) == pow(w, m) * (a[c + st + 2 * st * h1] * p))
            by (nonlinear_arith)
            requires
                st * e1 == st + 2 * st * h1,
        ;
        assert(pow(w, m) * (od + a[c + st + 2 * st * h1] * p) == pow(w, m) * od + pow(w, m) * (
        a[c + st + 2 * st * h1] * p)) by (nonlinear_arith);
    }
}

/// A DFT is periodic in the frequency with the order of the root.
proof fn lemma_dsum_period(a: Seq<int>, c: int, st: int, k: nat, w: int, m: nat, p: nat)
    requires
        md(pow(w, p)) == 1,
    ensures
        md(dsum(a, c, st, k, w, m + p)) == md(dsum(a, c, st, k, w, m)),
    decreases k,
{
    if k > 0 {
        let q = (k - 1) as nat;
        lemma_dsum_period(a, c, st, q, w, m, p);
        let x = a[c + st * q];
        assert(q * (m + p) == q * m + q * p) by (nonlinear_arith);
        lemma_pow_adds(w, q * m, q * p);
        assert(q * p == p * q) by (nonlinear_arith);
        lemma_pow_multiplies(w, p, q);
        lemma_pow_mod_noop(pow(w, p), q, modulus() as int);
        lemma1_pow(q);
        assert(md(pow(pow(w, p), q)) == 1) by {
            assert(md(pow(md(pow(w, p)) as int, q)) == md(pow(1, q)));
        }
        let t0 = x * pow(w, q * m);
        let t1 = x * pow(w, q * (m + p));
        assert(t1 == t0 * pow(pow(w, p), q)) by (nonlinear_arith)
            requires
                t1 == x * pow(w, q * (m + p)),
                t0 == x * pow(w, q * m),
                pow(w, q * (m + p)) == pow(w, q * m) * pow(w, q * p),
                pow(w, q * p) == pow(pow(w, p), q),
        ;
        lemma_md_mul(t0, pow(pow(w, p), q));
        lemma_md_small(t0);
        assert(md(t1) == md(t0));
        lemma_md_add(dsum(a, c, st, q, w, m + p), t1);
        lemma_md_add(dsum(a, c, st, q, w, m), t0);
    }
}

/// Adding half the period to the frequency negates a power of a primitive
/// root.
proof fn lemma_pow_half_period(w: int, m: nat, h: nat)
    requires
        md(pow(w, h)) == modulus() - 1,
    ensures
        md(pow(w, m + h)) == md(-pow(w, m)),
{
    lemma_pow_adds(w, m, h);
    lemma_md_mul_neg_one(pow(w, m), pow(w, h));
}

/// Quotient and remainder are determined by any decomposition with a
/// remainder in range.
pub proof fn lemma_divmod_unique(x: int, d: int, q: int, r: int)
    requires
        d > 0,
        0 <= r < d,
        x == q * d + r,
    ensures
        x / d == q,
        x % d == r,
{
    assert(x / d == q) by (nonlinear_arith)
        requires
            d > 0,
            0 <= r < d,
            x == q * d + r,
    ;
    assert(x % d == r) by (nonlinear_arith)
        requires
            d > 0,
            0 <= r < d,
            x == q * d + r,
    ;
}

/// The value the radix-2 FFT holds at position `p` once the blocks have size
/// `2^t`: the size-`2^t` DFT, with root `w^(2^(l-t))`, of the subsequence of
/// `a` with stride `2^(l-t)` that starts at the bit reversal of the block
/// index, taken at the position within the block.
pub open spec fn stage(a: Seq<int>, w: int, l: nat, t: nat, p: nat) -> int {
    let h = pow2(t);
    let sd = pow2((l - t) as nat);
    dsum(a, rev(p / h, (l - t) as nat) as int, sd as int, h, pow(w, sd), p % h)
}

/// Facts on the powers of two that the stages use.
proof fn lemma_stage_pows(l: nat, t: nat)
    requires
        t < l,
    ensures
        pow2(t + 1) == 2 * pow2(t),
        pow2((l - t) as nat) == 2 * pow2((l - t - 1) as nat),
        pow2((l - t) as nat) * pow2(t) == pow2(l),
        pow2((l - t - 1) as nat) * pow2(t) == pow2((l - 1) as nat),
        pow2(l) / 2 == pow2((l - 1) as nat),
        pow2(t) > 0,
        pow2((l - t - 1) as nat) > 0,
{
    lemma2_to64();
    lemma_pow2_adds(1, t);
    lemma_pow2_adds(1, (l - t - 1) as nat);
    lemma_pow2_adds((l - t) as nat, t);
    lemma_pow2_adds((l - t - 1) as nat, t);
    lemma_pow2_adds(1, (l - 1) as nat);
    lemma_pow2_pos(t);
    lemma_pow2_pos((l - t - 1) as nat);
    lemma_pow2_pos((l - 1) as nat);
}

/// One butterfly: the two outputs of a merge of two blocks of size `2^t`.
proof fn lemma_butterfly(a: Seq<int>, w: int, l: nat, t: nat, p0: nat)
    requires
        t < l,
        primitive_root(w, pow2(l)),
        p0 % pow2(t + 1) < pow2(t),
    ensures
        ({
            let h = pow2(t);
            let wh = pow(w, pow2((l - t - 1) as nat));
            let j = p0 % h;
            &&& stage(a, w, l, t + 1, p0) == stage(a, w, l, t, p0) + pow(wh, j) * stage(
                a,
                w,
                l,
                t,
                p0 + h,
            )
            &&& md(stage(a, w, l, t + 1, p0 + h)) == md(
                stage(a, w, l, t, p0) - pow(wh, j) * stage(a, w, l, t, p0 + h),
            )
        }),
{
    lemma_stage_pows(l, t);
    let h = pow2(t);
    let hh = pow2(t + 1);
    let sd = pow2((l - t) as nat);
    let sd1 = pow2((l - t - 1) as nat);
    let n = pow2(l);
    let wh = pow(w, sd1);
    let ww = pow(w, sd);
    let b = p0 / hh;
    let j = p0 % hh;
    assert(p0 == b * hh + j) by {
        vstd::arithmetic::div_mod::lemma_fundamental_div_mod(p0 as int, hh as int);
    }
    // positions of the two inputs within the blocks of size h
    assert(p0 == (2 * b) * h + j && p0 + h == (2 * b + 1) * h + j) by (nonlinear_arith)
        requires
            p0 == b * hh + j,
            hh == 2 * h,
    ;
    lemma_divmod_unique(p0 as int, h as int, (2 * b) as int, j as int);
    lemma_divmod_unique((p0 + h) as int, h as int, (2 * b + 1) as int, j as int);
    lemma_divmod_unique((p0 + h) as int, hh as int, b as int, (j + h) as int);
    assert(p0 % h == j);
    // bit reversal of the block indices
    let lt = (l - t) as nat;
    let c = rev(b, (lt - 1) as nat);
    assert(rev(2 * b, lt) == c) by {
        assert((2 * b) % 2 == 0);
        assert((2 * b) / 2 == b);
    }
    assert(rev(2 * b + 1, lt) == sd1 + c) by {
        assert((2 * b + 1) % 2 == 1);
        assert((2 * b + 1) / 2 == b);
    }
    // roots
    lemma_pow_adds(w, sd1, sd1);
    assert(wh * wh == ww) by {
        lemma_pow_adds(w, sd1, sd1);
    }
    assert(stage(a, w, l, t + 1, p0) == dsum(a, c as int, sd1 as int, hh, wh, j));
    assert(stage(a, w, l, t + 1, p0 + h) == dsum(a, c as int, sd1 as int, hh, wh, j + h));
    assert(stage(a, w, l, t, p0) == dsum(a, c as int, sd as int, h, ww, j));
    assert(stage(a, w, l, t, p0 + h) == dsum(a, (c + sd1) as int, sd as int, h, ww, j));
    lemma_dsum_split(a, c as int, sd1 as int, h, wh, j);
    lemma_dsum_split(a, c as int, sd1 as int, h, wh, j + h);
    assert(2 * h == hh);
    assert(2 * sd1 == sd);
    // the upper output: periodicity and the sign flip
    let e0 = dsum(a, c as int, sd as int, h, ww, j);
    let o0 = dsum(a, (c + sd1) as int, sd as int, h, ww, j);
    let e1 = dsum(a, c as int, sd as int, h, ww, j + h);
    let o1 = dsum(a, (c + sd1) as int, sd as int, h, ww, j + h);
    assert(md(pow(wh, h)) == modulus() - 1) by {
        lemma_pow_multiplies(w, sd1, h);
        assert(sd1 * h == n / 2);
        lemma_pow2_pos((l - 1) as nat);
        assert(n >= 2);
        assert(pow(wh, h) == pow(w, n / 2));
    }
    assert(md(pow(ww, h)) == 1) by {
        lemma_pow_multiplies(w, sd1, h);
        lemma_pow_adds(wh, h, h);
        assert(pow(ww, h) == pow(wh, 2 * h)) by {
            lemma_pow_multiplies(w, sd, h);
            lemma_pow_multiplies(w, sd1, 2 * h);
            assert(sd * h == sd1 * (2 * h)) by (nonlinear_arith)
                requires
                    sd == 2 * sd1,
            ;
        }
        lemma_md_mul(pow(wh, h), pow(wh, h));
        let r = modulus() as int;
        let m1 = r - 1;
        assert(m1 * m1 == (r - 2) * r + 1) by (nonlinear_arith)
            requires
                m1 == r - 1,
        ;
        lemma_divmod_unique(m1 * m1, r, r - 2, 1);
    }
    lemma_dsum_period(a, c as int, sd as int, h, ww, j, h);
    lemma_dsum_period(a, (c + sd1) as int, sd as int, h, ww, j, h);
    lemma_pow_half_period(wh, j, h);
    assert(stage(a, w, l, t + 1, p0 + h) == e1 + pow(wh, j + h) * o1);
    lemma_md_add(e1, pow(wh, j + h) * o1);
    lemma_md_mul(pow(wh, j + h), o1);
    lemma_md_mul(-pow(wh, j), o0);
    lemma_md_add(e0, -pow(wh, j) * o0);
    assert(-pow(wh, j) * o0 == -(pow(wh, j) * o0)) by (nonlinear_arith);
}

/// At the first stage each position holds the entry at its bit reversal.
proof fn lemma_stage_first(a: Seq<int>, w: int, l: nat, p: nat)
    ensures
        stage(a, w, l, 0, p) == a[rev(p, l) as int],
{
    lemma2_to64();
    let sd = pow2(l);
    assert(p / 1 == p);
    assert(p % 1 == 0);
    assert((l - 0) as nat == l);
    lemma_pow0(pow(w, sd));
    assert(stage(a, w, l, 0, p) == dsum(a, rev(p, l) as int, sd as int, 0, pow(w, sd), 0) + a[(rev(p, l) + sd * 0) as int] * pow(pow(w, sd), 0 * 0));
}

/// At the last stage the whole sequence is one block: its DFT.
proof fn lemma_stage_last(a: Seq<int>, w: int, l: nat, p: nat)
    requires
        a.len() == pow2(l),
        p < pow2(l),
    ensures
        stage(a, w, l, l, p) == dft(a, w, p),
{
    lemma2_to64();
    lemma_pow2_pos(l);
    lemma_pow1(w);
    lemma_divmod_unique(p as int, pow2(l) as int, 0, p as int);
    assert((l - l) as nat == 0);
    assert(rev(0, 0) == 0);
}

/// The modular arithmetic of one butterfly on reduced values.
proof fn lemma_butterfly_md(s0: int, s1: int, wh: int, j: nat, w_code: int)
    requires
        w_code == md(pow(md(wh), j)),
    ensures
        md(md(s0) + md(md(s1) * w_code)) == md(s0 + pow(wh, j) * s1),
        md(md(s0) - md(md(s1) * w_code)) == md(s0 - pow(wh, j) * s1),
{
    lemma_pow_mod_noop(wh, j, modulus() as int);
    assert(w_code == md(pow(wh, j)));
    lemma_md_mul(s1, pow(wh, j));
    assert(md(md(s1) * w_code) == md(s1 * pow(wh, j)));
    assert(s1 * pow(wh, j) == pow(wh, j) * s1) by (nonlinear_arith);
    lemma_md_add(s0, pow(wh, j) * s1);
    lemma_md_sub(s0, pow(wh, j) * s1);
    lemma_md_small(s0);
    lemma_md_small(pow(wh, j) * s1);
}

/// `usize::trailing_zeros` of std: the number of low zero bits.
#[verifier::external_body]
fn usize_trailing_zeros(x: usize) -> (r: u32)
    ensures
        r <= usize::BITS,
        x > 0 ==> (x as nat % pow2(r as nat) == 0 && (x as nat / pow2(r as nat)) % 2 == 1),
{
    x.trailing_zeros()
}

/// The number of low zero bits of a power of two is its exponent.
proof fn lemma_trailing_zeros_pow2(l: nat, r: nat)
    requires
        pow2(l) % pow2(r) == 0,
        (pow2(l) / pow2(r)) % 2 == 1,
    ensures
        r == l,
{
    lemma2_to64();
    lemma_pow2_pos(l);
    lemma_pow2_pos(r);
    if r < l {
        lemma_pow2_adds((l - r - 1) as nat, r + 1);
        lemma_pow2_adds(1, r);
        let q = pow2((l - r - 1) as nat);
        assert(pow2(l) == (2 * q) * pow2(r)) by (nonlinear_arith)
            requires
                pow2(l) == q * pow2(r + 1),
                pow2(r + 1) == 2 * pow2(r),
        ;
        lemma_divmod_unique(pow2(l) as int, pow2(r) as int, (2 * q) as int, 0);
    } else if r > l {
        vstd::arithmetic::power2::lemma_pow2_strictly_increases(l, r);
        lemma_divmod_unique(pow2(l) as int, pow2(r) as int, 0, pow2(l) as int);
    }
}

/// `<[T]>::swap` of core: exchanges two entries.
#[verifier::external_body]
fn slice_swap<T>(s: &mut [T], i: usize, j: usize)
    requires
        i < old(s)@.len(),
        j < old(s)@.len(),
    ensures
        final(s)@ == old(s)@.update(i as int, old(s)@[j as int]).update(j as int, old(s)@[i as int]),
{
    s.swap(i, j)
}

/// A block that starts on a multiple of its size below `n`, itself a
/// multiple of that size, ends by `n`.
proof fn lemma_block_fits(k: int, step: int, n: int)
    requires
        step > 0,
        0 <= k < n,
        k % step == 0,
        n % step == 0,
    ensures
        k + step <= n,
{
    vstd::arithmetic::div_mod::lemma_fundamental_div_mod(k, step);
    vstd::arithmetic::div_mod::lemma_fundamental_div_mod(n, step);
    let kb = k / step;
    let nb = n / step;
    assert(kb < nb) by (nonlinear_arith)
        requires
            k == step * kb,
            n == step * nb,
            k < n,
            step > 0,
    ;
    assert(k + step <= n) by (nonlinear_arith)
        requires
            k == step * kb,
            n == step * nb,
            kb + 1 <= nb,
            step > 0,
    ;
}

/// The position `k + j`, for a block start `k` of size `2·half` and
/// `j < half`, lies in the lower half of its block.
proof fn lemma_in_block(k: int, j: int, half: int)
    requires
        half > 0,
        k >= 0,
        k % (2 * half) == 0,
        0 <= j < half,
    ensures
        (k + j) % (2 * half) == j,
        (k + j) % half == j,
{
    vstd::arithmetic::div_mod::lemma_fundamental_div_mod(k, 2 * half);
    let b = k / (2 * half);
    lemma_divmod_unique(k + j, 2 * half, b, j);
    assert(k + j == (2 * b) * half + j) by (nonlinear_arith)
        requires
            k == (2 * half) * b,
    ;
    lemma_divmod_unique(k + j, half, 2 * b, j);
}

/// `n` is a power of two.
pub open spec fn is_pow2(n: nat) -> bool {
    exists|l: nat| pow2(l) == n
}

/// In-place radix-2 decimation-in-time FFT over the field or a group:
/// afterwards position `m` holds `Σ_r vals[r] · omega^(m·r)`, for `omega` a
/// primitive `n`-th root of unity and `n` the length, which must be a power
/// of two.
pub fn group_fft_in_place<G: GroupElem>(vals: &mut [G], omega: &Scalar)
    requires
        is_pow2(old(vals)@.len()),
        primitive_root(omega@ as int, old(vals)@.len()),
    ensures
        final(vals)@.len() == old(vals)@.len(),
        forall|m: int|
            0 <= m < old(vals)@.len() ==> #[trigger] final(vals)@[m].dlog() == md(
                dft(dlogs(old(vals)@), omega@ as int, m as nat),
            ),
{
    let ghost a = dlogs(vals@);
    let ghost w = omega@ as int;
    let n = vals.len();
    if n <= 1 {
        proof {
            if n == 1 {
                vals@[0].lemma_dlog_bound();
                assert(dft(a, w, 0) == dsum(a, 0, 1, 0, w, 0) + a[0] * pow(w, 0));
                lemma_pow0(w);
                lemma_md_small(a[0]);
            }
        }
        return;
    }
    let ghost l: nat = choose|l: nat| pow2(l) == n;
    let log_n = usize_trailing_zeros(n);
    proof {
        lemma_trailing_zeros_pow2(l, log_n as nat);
        lemma2_to64();
        if l == 0 {
            assert(pow2(0) == 1);
        }
    }
    // Bit-reversal permutation
    let mut i: usize = 0;
    while i < n
        invariant
            0 <= i <= n,
            n == vals@.len(),
            n == pow2(l),
            l == log_n,
            0 < log_n <= usize::BITS,
            a.len() == n,
            forall|p: int|
                0 <= p < n ==> #[trigger] vals@[p].dlog() == (if p < i || rev(p as nat, l) < i {
                    a[rev(p as nat, l) as int]
                } else {
                    a[p]
                }),
        decreases n - i,
    {
        let j = reverse_bits(i, log_n);
        proof {
            lemma_small_mod(i as nat, pow2(l));
            lemma_rev_bound(i as nat, l);
            lemma_rev_involution(i as nat, l);
        }
        if i < j {
            slice_swap(vals, i, j);
        }
        proof {
            assert forall|p: int| 0 <= p < n implies #[trigger] vals@[p].dlog() == (if p < i + 1
                || rev(p as nat, l) < i + 1 {
                a[rev(p as nat, l) as int]
            } else {
                a[p]
            }) by {
                lemma_rev_involution(p as nat, l);
                lemma_rev_bound(p as nat, l);
            }
        }
        i += 1;
    }
    proof {
        assert forall|p: int| 0 <= p < n implies #[trigger] vals@[p].dlog() == md(
            stage(a, w, l, 0, p as nat),
        ) by {
            lemma_stage_first(a, w, l, p as nat);
            lemma_rev_bound(p as nat, l);
            vals@[p].lemma_dlog_bound();
        }
    }
    // Butterfly stages
    let mut half: usize = 1;
    let ghost mut t: nat = 0;
    while half < n
        invariant
            n == vals@.len(),
            n == pow2(l),
            a.len() == n,
            w == omega@,
            primitive_root(w, n as nat),
            t <= l,
            half == pow2(t),
            forall|p: int|
                0 <= p < n ==> #[trigger] vals@[p].dlog() == md(stage(a, w, l, t, p as nat)),
        decreases n - half,
    {
        proof {
            if t == l {
                assert(false);
            }
            lemma_stage_pows(l, t);
            lemma_pow2_adds(t + 1, (l - t - 1) as nat);
            lemma_pow2_pos((l - t - 1) as nat);
            assert(pow2(t + 1) <= n) by (nonlinear_arith)
                requires
                    n == pow2(t + 1) * pow2((l - t - 1) as nat),
                    pow2((l - t - 1) as nat) > 0,
            ;
            lemma_divmod_unique(n as int, pow2(t + 1) as int, pow2((l - t - 1) as nat) as int, 0);
        }
        let step = half * 2;
        let ghost sd1 = pow2((l - t - 1) as nat);
        let ghost wh = pow(w, sd1);
        // omega_step = omega^(n/step), a primitive step-th root of unity
        let omega_step = omega.pow((n / step) as u64);
        let mut k: usize = 0;
        while k < n
            invariant
                n == vals@.len(),
                n == pow2(l),
                a.len() == n,
                t < l,
                half == pow2(t),
                step == pow2(t + 1),
                step == 2 * half,
                step > 0,
                n % step == 0,
                k <= n,
                k % step == 0,
                sd1 == pow2((l - t - 1) as nat),
                wh == pow(w, sd1),
                omega_step@ == md(wh),
                primitive_root(w, n as nat),
                forall|p: int|
                    0 <= p < n ==> #[trigger] vals@[p].dlog() == md(
                        if p < k {
                            stage(a, w, l, t + 1, p as nat)
                        } else {
                            stage(a, w, l, t, p as nat)
                        },
                    ),
            decreases n - k,
        {
            proof {
                lemma_block_fits(k as int, step as int, n as int);
            }
            let mut wj = Scalar::one();
            let mut j: usize = 0;
            proof {
                lemma_pow0(md(wh));
                lemma_md_small(1);
            }
            while j < half
                invariant
                    n == vals@.len(),
                    n == pow2(l),
                    a.len() == n,
                    t < l,
                    half == pow2(t),
                    step == pow2(t + 1),
                    step == 2 * half,
                    n % step == 0,
                    k + step <= n,
                    k % step == 0,
                    j <= half,
                    sd1 == pow2((l - t - 1) as nat),
                    wh == pow(w, sd1),
                    omega_step@ == md(wh),
                    wj@ == md(pow(md(wh), j as nat)),
                    primitive_root(w, n as nat),
                    forall|p: int|
                        0 <= p < n ==> #[trigger] vals@[p].dlog() == md(
                            if p < k + j || (k + half <= p < k + half + j) {
                                stage(a, w, l, t + 1, p as nat)
                            } else {
                                stage(a, w, l, t, p as nat)
                            },
                        ),
                decreases half - j,
            {
                let p0 = k + j;
                let p1 = k + j + half;
                proof {
                    lemma_in_block(k as int, j as int, half as int);
                    lemma_butterfly(a, w, l, t, p0 as nat);
                    lemma_butterfly_md(
                        stage(a, w, l, t, p0 as nat),
                        stage(a, w, l, t, p1 as nat),
                        wh,
                        j as nat,
                        wj@ as int,
                    );
                }
                let tw = vals[p1].times(&wj);
                let u = vals[p0].duplicate();
                vals[p0] = u.plus(&tw);
                vals[p1] = u.minus(&tw);
                proof {
                    lemma_pow_adds(md(wh), j as nat, 1);
                    lemma_pow1(md(wh));
                    lemma_md_mul(pow(md(wh), j as nat), md(wh));
                    lemma_md_small(wh);
                }
                wj = wj.mul(&omega_step);
                j += 1;
            }
            proof {
                vstd::arithmetic::div_mod::lemma_mod_add_multiples_vanish(k as int, step as int);
            }
            k += step;
        }
        half = step;
        proof {
            t = t + 1;
        }
    }
    proof {
        if t < l {
            vstd::arithmetic::power2::lemma_pow2_strictly_increases(t, l);
        }
        assert(t == l);
        assert forall|m: int| 0 <= m < n implies #[trigger] vals@[m].dlog() == md(
            dft(a, w, m as nat),
        ) by {
            lemma_stage_last(a, w, l, m as nat);
        }
    }
}

/// The inverse of a primitive root of unity is one too.
proof fn lemma_inv_primitive(w: int, wi: int, n: nat)
    requires
        md(w * wi) == 1,
        primitive_root(w, n),
    ensures
        primitive_root(wi, n),
{
    if n >= 2 {
        let e = n / 2;
        lemma_pow_distributes(w, wi, e);
        lemma_pow_mod_noop(w * wi, e, modulus() as int);
        lemma1_pow(e);
        assert(md(pow(w * wi, e)) == 1) by {
            assert(md(pow(md(w * wi), e)) == md(pow(1, e)));
        }
        lemma_md_mul_neg_one(pow(wi, e), pow(w, e));
        assert(pow(w, e) * pow(wi, e) == pow(wi, e) * pow(w, e)) by (nonlinear_arith);
        assert(md(-pow(wi, e)) == 1);
        lemma_md_sub(0, -pow(wi, e));
        lemma_md_sub(0, 1);
        assert(0 - -pow(wi, e) == pow(wi, e));
    }
}

/// In-place inverse FFT: afterwards position `r` holds
/// `n⁻¹ · Σ_m vals[m] · omega^(-m·r)`.
pub fn group_ifft_in_place<G: GroupElem>(vals: &mut [G], omega: &Scalar)
    requires
        old(vals)@.len() >= 1,
        is_pow2(old(vals)@.len()),
        primitive_root(omega@ as int, old(vals)@.len()),
        omega@ != 0,
    ensures
        final(vals)@.len() == old(vals)@.len(),
        forall|r: int|
            0 <= r < old(vals)@.len() ==> #[trigger] final(vals)@[r].dlog() == md(
                inv(old(vals)@.len() as int) * dft(dlogs(old(vals)@), inv(omega@ as int), r as nat),
            ),
{
    let ghost a = dlogs(vals@);
    let ghost n0 = vals@.len();
    let omega_inv = omega.inverse().expect("omega must be nonzero");
    proof {
        use_type_invariant(&omega_inv);
        lemma_inv_primitive(omega@ as int, omega_inv@ as int, n0);
        lemma_inv_unique(omega@ as int, omega_inv@ as int);
    }
    group_fft_in_place(vals, &omega_inv);
    let n = vals.len();
    proof {
        lemma_md_small(n as int);
    }
    let n_inv = Scalar::from_u64(n as u64).inverse().expect("n must be nonzero in the field");
    proof {
        use_type_invariant(&n_inv);
        lemma_md_small(n as int);
        lemma_inv_unique(n as int, n_inv@ as int);
    }
    let mut i: usize = 0;
    while i < n
        invariant
            n == vals@.len(),
            n == n0,
            0 <= i <= n,
            n_inv@ == inv(n as int),
            forall|r: int|
                0 <= r < n ==> #[trigger] vals@[r].dlog() == (if r < i {
                    md(md(dft(a, omega_inv@ as int, r as nat)) * n_inv@)
                } else {
                    md(dft(a, omega_inv@ as int, r as nat))
                }),
        decreases n - i,
    {
        let v = vals[i].times(&n_inv);
        vals[i] = v;
        i += 1;
    }
    proof {
        assert forall|r: int| 0 <= r < n implies #[trigger] vals@[r].dlog() == md(
            inv(n as int) * dft(a, inv(omega@ as int), r as nat),
        ) by {
            let d = dft(a, omega_inv@ as int, r as nat);
            lemma_md_mul(n_inv@ as int, d);
            lemma_md_small(n_inv@ as int);
            lemma_md_small(d);
            assert(md(d) * n_inv@ == md(n_inv@ as int) * md(d)) by (nonlinear_arith)
                requires
                    md(n_inv@ as int) == n_inv@,
            ;
        }
    }
}

/// The pointwise product of a transformed kernel with the transform of `a`.
pub open spec fn pointwise(d_hat: Seq<int>, a: Seq<int>, w: int) -> Seq<int> {
    Seq::new(a.len(), |m: int| md(d_hat[m] * dft(a, w, m as nat)))
}

/// What `circulant_mul` returns at `j`: `omega^(-j) · IFFT(d_hat ⊙ FFT(a))[j]`.
pub open spec fn circulant_at(d_hat: Seq<int>, a: Seq<int>, w: int, j: nat) -> int {
    md(pow(inv(w), j) * md(inv(a.len() as int) * dft(pointwise(d_hat, a, w), inv(w), j)))
}

/// The product `M·a` for the matrix `M_jk = omega^(-j) · d_(j-k)`, with
/// `d_hat` the FFT of the kernel `d`: FFT, pointwise product, inverse FFT,
/// then a twist by `omega^(-j)`.
pub fn circulant_mul<G: GroupElem>(d_hat: &[Scalar], a: &[G], omega: &Scalar) -> (res: Vec<G>)
    requires
        d_hat@.len() == a@.len(),
        a@.len() >= 1,
        is_pow2(a@.len()),
        primitive_root(omega@ as int, a@.len()),
        omega@ != 0,
    ensures
        res@.len() == a@.len(),
        forall|j: int|
            0 <= j < a@.len() ==> #[trigger] res@[j].dlog() == circulant_at(
                dlogs(d_hat@),
                dlogs(a@),
                omega@ as int,
                j as nat,
            ),
{
    let n = a.len();
    let ghost av = dlogs(a@);
    let ghost dv = dlogs(d_hat@);
    let ghost w = omega@ as int;
    // Step 1: FFT of the group-element vector
    let mut a_hat: Vec<G> = Vec::new();
    let mut i: usize = 0;
    while i < n
        invariant
            n == a@.len(),
            0 <= i <= n,
            a_hat@.len() == i,
            forall|m: int| 0 <= m < i ==> #[trigger] a_hat@[m].dlog() == a@[m].dlog(),
        decreases n - i,
    {
        a_hat.push(a[i].duplicate());
        i += 1;
    }
    proof {
        assert(dlogs(a_hat@) =~= av);
    }
    group_fft_in_place(a_hat.as_mut_slice(), omega);
    // Step 2: pointwise scalar multiply c_hat[m] = d_hat[m] * a_hat[m]
    let mut c_hat: Vec<G> = Vec::new();
    let mut m: usize = 0;
    while m < n
        invariant
            n == a@.len(),
            n == a_hat@.len(),
            n == d_hat@.len(),
            dv == dlogs(d_hat@),
            av == dlogs(a@),
            0 <= m <= n,
            c_hat@.len() == m,
            forall|q: int|
                0 <= q < n ==> #[trigger] a_hat@[q].dlog() == md(dft(av, w, q as nat)),
            forall|q: int|
                0 <= q < m ==> #[trigger] c_hat@[q].dlog() == pointwise(dv, av, w)[q],
        decreases n - m,
    {
        let dm = &d_hat[m];
        let c = a_hat[m].times(dm);
        proof {
            let x = dft(av, w, m as nat);
            let y = dm@;
            use_type_invariant(dm);
            lemma_small_mod(y, modulus());
            lemma_md_small(y as int);
            lemma_md_mul(x, y as int);
            lemma_md_small(x);
            lemma_md_small(y as int);
            assert(dv[m as int] == d_hat@[m as int].dlog());
            assert(d_hat@[m as int].dlog() == y % modulus());
            assert(dv[m as int] == y);
            assert(md(x) * y == md(x) * md(y as int));
            assert(x * y == dv[m as int] * x) by (nonlinear_arith)
                requires
                    dv[m as int] == y,
            ;
        }
        c_hat.push(c);
        proof {
            assert(c_hat@[m as int].dlog() == pointwise(dv, av, w)[m as int]);
        }
        m += 1;
    }
    proof {
        assert(dlogs(c_hat@) =~= pointwise(dv, av, w));
    }
    // Step 3: IFFT
    group_ifft_in_place(c_hat.as_mut_slice(), omega);
    // Step 4: multiply by omega^{-j}
    let omega_inv = omega.inverse().expect("omega must be nonzero");
    proof {
        use_type_invariant(&omega_inv);
        lemma_inv_unique(w, omega_inv@ as int);
        lemma_pow0(w);
        lemma_pow0(inv(w));
        lemma_md_small(1);
    }
    let mut omega_inv_j = Scalar::one();
    let mut j: usize = 0;
    while j < n
        invariant
            n == c_hat@.len(),
            n == a@.len(),
            0 <= j <= n,
            omega_inv@ == inv(w),
            omega_inv@ < modulus(),
            av.len() == n,
            omega_inv_j@ == md(pow(inv(w), j as nat)),
            forall|q: int|
                0 <= q < n ==> #[trigger] c_hat@[q].dlog() == (if q < j {
                    circulant_at(dv, av, w, q as nat)
                } else {
                    md(inv(n as int) * dft(pointwise(dv, av, w), inv(w), q as nat))
                }),
        decreases n - j,
    {
        let v = c_hat[j].times(&omega_inv_j);
        let ghost old_c = c_hat@;
        proof {
            let c = inv(n as int) * dft(pointwise(dv, av, w), inv(w), j as nat);
            let p = pow(inv(w), j as nat);
            assert(c_hat@[j as int].dlog() == md(c));
            assert(v.dlog() == md(md(c) * md(p)));
            lemma_md_mul(p, md(c));
            lemma_md_small(c);
            assert(md(c) * md(p) == md(p) * md(md(c))) by (nonlinear_arith)
                requires
                    md(md(c)) == md(c),
            ;
            assert(v.dlog() == circulant_at(dv, av, w, j as nat));
        }
        c_hat.set(j, v);
        proof {
            assert forall|q: int| 0 <= q < n implies #[trigger] c_hat@[q].dlog() == (if q < j + 1 {
                circulant_at(dv, av, w, q as nat)
            } else {
                md(inv(n as int) * dft(pointwise(dv, av, w), inv(w), q as nat))
            }) by {
                if q != j {
                    assert(c_hat@[q] == old_c[q]);
                }
            }
            let iw = inv(w);
            lemma_pow_adds(iw, j as nat, 1);
            lemma_pow1(iw);
            lemma_md_mul(pow(iw, j as nat), iw);
            lemma_md_small(iw);
            lemma_md_small(pow(iw, j as nat));
            assert(md(md(pow(iw, j as nat)) * iw) == md(pow(iw, (j + 1) as nat)));
        }
        omega_inv_j = omega_inv_j.mul(&omega_inv);
        j += 1;
    }
    c_hat
}

/// An odd power of an element congruent to `-1` is congruent to `-1`.
pub(crate) proof fn lemma_pow_neg_one_odd(y: int, k: nat)
    requires
        md(y) == modulus() - 1,
        k % 2 == 1,
    ensures
        md(pow(y, k)) == modulus() - 1,
    decreases k,
{
    if k == 1 {
        lemma_pow1(y);
    } else {
        let k2 = (k - 2) as nat;
        lemma_pow_neg_one_odd(y, k2);
        lemma_pow_adds(y, k2, 2);
        lemma_square_is_pow2(y);
        lemma_md_mul_neg_one(y, y);
        lemma_md_sub(0, y);
        assert(md(-y) == 1) by {
            lemma_md_sub(0, modulus() - 1);
        }
        assert(md(y * y) == 1);
        lemma_md_mul(pow(y, k2), y * y);
        lemma_md_mul(pow(y, k2), 1);
        lemma_md_small(pow(y, k2));
    }
}

/// Powers of a primitive `2^l`-th root of unity with exponent strictly
/// between 0 and `2^l` are not 1.
pub proof fn lemma_root_nonone(w: int, l: nat, k: nat)
    requires
        l >= 1,
        md(pow(w, pow2(l) / 2)) == modulus() - 1,
        0 < k < pow2(l),
    ensures
        md(pow(w, k)) != 1,
    decreases l,
{
    lemma2_to64();
    lemma_pow2_adds(1, (l - 1) as nat);
    let h = pow2((l - 1) as nat);
    assert(pow2(l) / 2 == h);
    if k % 2 == 1 {
        if md(pow(w, k)) == 1 {
            lemma_pow_multiplies(w, k, h);
            lemma_pow_multiplies(w, h, k);
            assert(k * h == h * k) by (nonlinear_arith);
            lemma_pow_mod_noop(pow(w, k), h, modulus() as int);
            lemma1_pow(h);
            assert(md(pow(pow(w, k), h)) == 1) by {
                assert(md(pow(md(pow(w, k)), h)) == md(pow(1, h)));
            }
            lemma_pow_neg_one_odd(pow(w, h), k);
            assert(false);
        }
    } else {
        if l == 1 {
            assert(false);
        } else {
            let k2 = k / 2;
            let w2 = w * w;
            lemma_square_is_pow2(w);
            lemma_pow2_adds(1, (l - 2) as nat);
            lemma_pow_multiplies(w, 2, pow2((l - 2) as nat));
            lemma_pow_multiplies(w, 2, k2);
            assert(pow2((l - 1) as nat) / 2 == pow2((l - 2) as nat));
            lemma_root_nonone(w2, (l - 1) as nat, k2);
        }
    }
}

} // verus!
