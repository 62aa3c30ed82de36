//! Bit reversal of indices, as used by the radix-2 FFT.

use vstd::prelude::*;
use vstd::arithmetic::power2::{pow2, lemma_pow2_pos, lemma_pow2_adds, lemma2_to64};
use vstd::arithmetic::div_mod::{lemma_div_denominator, lemma_mod_mod, lemma_fundamental_div_mod,
    lemma_hoist_over_denominator, lemma_mod_multiples_vanish, lemma_fundamental_div_mod_converse};

use vstd::bits::lemma_usize_shr_is_div;

verus! {

/// The lowest `len` bits of `x` in reverse order: bit `i` of `x` becomes bit
/// `len - 1 - i` of the result.
pub open spec fn rev(x: nat, len: nat) -> nat
    decreases len,
{
    if len == 0 {
        0
    } else {
        (x % 2) * pow2((len - 1) as nat) + rev(x / 2, (len - 1) as nat)
    }
}

/// `usize::reverse_bits` of std: the bits of the word in reverse order.
#[verifier::external_body]
fn usize_reverse_bits(x: usize) -> (r: usize)
    ensures
        r as nat == rev(x as nat, usize::BITS as nat),
{
    x.reverse_bits()
}

/// The reversal of `len` bits is below `2^len`.
pub proof fn lemma_rev_bound(x: nat, len: nat)
    ensures
        rev(x, len) < pow2(len),
    decreases len,
{
    lemma2_to64();
    if len > 0 {
        lemma_rev_bound(x / 2, (len - 1) as nat);
        lemma_pow2_adds(1, (len - 1) as nat);
        assert(pow2(len) == 2 * pow2((len - 1) as nat));
        assert((x % 2) * pow2((len - 1) as nat) <= pow2((len - 1) as nat)) by (nonlinear_arith)
            requires
                x % 2 <= 1,
        ;
    }
}

/// Reversing one bit keeps it.
pub proof fn lemma_rev_one(z: nat)
    ensures
        rev(z, 1) == z % 2,
{
    lemma2_to64();
    assert(rev(z, 1) == (z % 2) * pow2(0) + rev(z / 2, 0));
}

/// Splitting the reversal of `a + b` bits: the low `a` bits of `x`, reversed,
/// land on top, and the next `b` bits, reversed, below them.
pub proof fn lemma_rev_split(x: nat, a: nat, b: nat)
    ensures
        rev(x, a + b) == rev(x % pow2(a), a) * pow2(b) + rev(x / pow2(a), b),
    decreases a,
{
    lemma2_to64();
    if a == 0 {
        assert(pow2(0) == 1);
        assert(x % 1 == 0);
        assert(x / 1 == x);
        assert(rev(x % pow2(a), a) == 0);
        assert(rev(x % pow2(a), a) * pow2(b) == 0);
    } else {
        let a1 = (a - 1) as nat;
        lemma_rev_split(x / 2, a1, b);
        lemma_pow2_pos(a1);
        lemma_pow2_pos(b);
        lemma_pow2_adds(1, a1);
        lemma_pow2_adds(a1, b);
        lemma_pow2_adds(1, (a1 + b) as nat);
        let m = pow2(a1);
        let xa = x % pow2(a);
        // x % 2^a keeps the low bit of x and the low a-1 bits of x / 2
        assert(xa % 2 == x % 2) by {
            lemma_mod_mod(x as int, 2, m as int);
        }
        assert(xa / 2 == (x / 2) % m) by {
            lemma_fundamental_div_mod(x as int, 2);
            lemma_fundamental_div_mod((x / 2) as int, m as int);
            lemma_fundamental_div_mod(x as int, pow2(a) as int);
            lemma_div_denominator(x as int, 2, m as int);
            let q = x / pow2(a);
            let r1 = x % 2;
            let r2 = (x / 2) % m;
            assert(x == 2 * ((x / 2) / m * m + r2) + r1);
            assert((x / 2) / m == q);
            assert(x == pow2(a) * q + (2 * r2 + r1)) by (nonlinear_arith)
                requires
                    x == 2 * ((x / 2) / m * m + r2) + r1,
                    (x / 2) / m == q,
                    pow2(a) == 2 * m,
            ;
            assert(0 <= 2 * r2 + r1 < pow2(a)) by (nonlinear_arith)
                requires
                    r2 < m,
                    r1 < 2,
                    pow2(a) == 2 * m,
            ;
            vstd::arithmetic::div_mod::lemma_fundamental_div_mod_converse(
                x as int,
                pow2(a) as int,
                q as int,
                (2 * r2 + r1) as int,
            );
            assert(xa == 2 * r2 + r1);
        }
        assert(x / pow2(a) == (x / 2) / m) by {
            lemma_div_denominator(x as int, 2, m as int);
        }
        assert(a + b == 1 + (a1 + b));
        assert(rev(x, a + b) == (x % 2) * pow2((a1 + b) as nat) + rev(x / 2, (a1 + b) as nat));
        assert(rev(x / 2, (a1 + b) as nat) == rev((x / 2) % m, a1) * pow2(b) + rev((x / 2) / m, b));
        assert(rev(xa, a) == (xa % 2) * m + rev(xa / 2, a1));
        assert((x % 2) * pow2((a1 + b) as nat) == ((x % 2) * m) * pow2(b)) by (nonlinear_arith)
            requires
                pow2((a1 + b) as nat) == m * pow2(b),
        ;
        assert(rev(xa, a) * pow2(b) == (xa % 2) * m * pow2(b) + rev(xa / 2, a1) * pow2(b))
            by (nonlinear_arith)
            requires
                rev(xa, a) == (xa % 2) * m + rev(xa / 2, a1),
        ;
        assert(rev(xa, a) * pow2(b) + rev(x / pow2(a), b) == (x % 2) * pow2((a1 + b) as nat)
            + rev((x / 2) % m, a1) * pow2(b) + rev((x / 2) / m, b));
    }
}

/// Reversing `len` bits twice gives back every number below `2^len`.
pub proof fn lemma_rev_involution(x: nat, len: nat)
    requires
        x < pow2(len),
    ensures
        rev(rev(x, len), len) == x,
    decreases len,
{
    lemma2_to64();
    if len == 0 {
    } else {
        let l1 = (len - 1) as nat;
        let m = pow2(l1);
        lemma_pow2_adds(1, l1);
        lemma_pow2_pos(l1);
        let y = rev(x, len);
        assert(x / 2 < m) by {
            lemma_fundamental_div_mod(x as int, 2);
        }
        lemma_rev_involution(x / 2, l1);
        lemma_rev_bound(x / 2, l1);
        // y = (x % 2) * 2^(len-1) + rev(x / 2, len-1)
        assert(y == (x % 2) * m + rev(x / 2, l1));
        vstd::arithmetic::div_mod::lemma_fundamental_div_mod_converse(
            y as int,
            m as int,
            (x % 2) as int,
            rev(x / 2, l1) as int,
        );
        lemma_rev_split(y, l1, 1);
        assert(l1 + 1 == len);
        lemma_rev_one(y / m);
        assert(rev(y, len) == rev(rev(x / 2, l1), l1) * 2 + x % 2);
        lemma_fundamental_div_mod(x as int, 2);
    }
}

/// Bit `b` of `v`.
pub open spec fn bit(v: nat, b: nat) -> nat {
    (v / pow2(b)) % 2
}

/// Bit `b` of the reversal of `len` bits of `x` is bit `len - 1 - b` of `x`.
pub proof fn lemma_rev_bit(x: nat, len: nat, b: nat)
    requires
        b < len,
    ensures
        bit(rev(x, len), b) == bit(x, (len - 1 - b) as nat),
    decreases len,
{
    lemma2_to64();
    let l1 = (len - 1) as nat;
    let p = pow2(l1);
    let rr = rev(x / 2, l1);
    lemma_pow2_pos(l1);
    lemma_rev_bound(x / 2, l1);
    assert(rev(x, len) == (x % 2) * p + rr);
    if b == l1 {
        lemma_fundamental_div_mod_converse(rev(x, len) as int, p as int, (x % 2) as int, rr as int);
        assert(x / pow2(0) == x);
    } else {
        let k = (l1 - b) as nat;
        let k1 = (k - 1) as nat;
        let q = pow2(b);
        lemma_pow2_pos(b);
        lemma_pow2_pos(k1);
        lemma_pow2_adds(b, k);
        lemma_pow2_adds(1, k1);
        assert(b + k == l1);
        // rev / 2^b = (x % 2)·2^k + rr / 2^b, and 2^k is even
        let j = (x % 2) * pow2(k);
        assert(j * q == (x % 2) * p) by (nonlinear_arith)
            requires
                j == (x % 2) * pow2(k),
                p == q * pow2(k),
        ;
        lemma_hoist_over_denominator(rr as int, j as int, q);
        assert(j == 2 * ((x % 2) * pow2(k1))) by (nonlinear_arith)
            requires
                j == (x % 2) * pow2(k),
                pow2(k) == 2 * pow2(k1),
        ;
        lemma_mod_multiples_vanish(((x % 2) * pow2(k1)) as int, (rr / q) as int, 2);
        assert(bit(rev(x, len), b) == bit(rr, b));
        lemma_rev_bit(x / 2, l1, b);
        assert(k1 == (l1 - 1 - b) as nat);
        lemma_div_denominator(x as int, 2, pow2(k1) as int);
        assert(bit(x / 2, k1) == bit(x, k));
    }
}

/// The bits of `x % 2^len` below `len` are those of `x`.
pub proof fn lemma_low_bit(x: nat, len: nat, b: nat)
    requires
        b < len,
    ensures
        bit(x % pow2(len), b) == bit(x, b),
{
    let k = (len - b) as nat;
    let k1 = (k - 1) as nat;
    lemma2_to64();
    lemma_pow2_pos(len);
    lemma_pow2_pos(b);
    lemma_pow2_adds(b, k);
    lemma_pow2_adds(1, k1);
    let m = pow2(len);
    let q = pow2(b);
    let y = x % m;
    let t = x / m;
    lemma_fundamental_div_mod(x as int, m as int);
    // x = y + (t·2^k)·2^b
    assert(x == y + (t * pow2(k)) * q) by (nonlinear_arith)
        requires
            x == m * t + y,
            m == q * pow2(k),
    ;
    lemma_hoist_over_denominator(y as int, (t * pow2(k)) as int, q);
    assert(t * pow2(k) == 2 * (t * pow2(k1))) by (nonlinear_arith)
        requires
            pow2(k) == 2 * pow2(k1),
    ;
    lemma_mod_multiples_vanish((t * pow2(k1)) as int, (y / q) as int, 2);
}

/// `(v >> s) & 1` is bit `s` of `v`.
proof fn lemma_shr_bit(v: usize, s: usize)
    requires
        s < usize::BITS,
    ensures
        ((v >> s) & 1) as nat == bit(v as nat, s as nat),
{
    lemma_usize_shr_is_div(v, s);
    let w = v >> s;
    assert(w & 1 == w % 2) by (bit_vector);
}

/// Reversal of the lowest `len` bits of a word.
pub fn reverse_bits(x: usize, log_n: u32) -> (r: usize)
    requires
        0 < log_n <= usize::BITS,
    ensures
        r as nat == rev(x as nat % pow2(log_n as nat), log_n as nat),
        r < pow2(log_n as nat),
        forall|b: usize|
            b < log_n ==> #[trigger] ((r >> b) & 1) == ((x >> ((log_n - 1 - b) as usize)) & 1),
{
    let y = usize_reverse_bits(x);
    let shift = usize::BITS - log_n;
    proof {
        lemma_rev_split(x as nat, log_n as nat, shift as nat);
        assert(log_n + shift == usize::BITS);
        lemma_rev_bound(x as nat / pow2(log_n as nat), shift as nat);
        lemma_pow2_pos(shift as nat);
        lemma_usize_shr_is_div(y, shift as usize);
        assert(log_n as nat + shift as nat == usize::BITS as nat);
        let a = rev(x as nat % pow2(log_n as nat), log_n as nat);
        let b = rev(x as nat / pow2(log_n as nat), shift as nat);
        let ln = log_n as nat;
        let sh = shift as nat;
        assert(rev(x as nat, ln + sh) == a * pow2(sh) + b);
        assert(ln + sh == usize::BITS as nat);
        assert(rev(x as nat, usize::BITS as nat) == rev(x as nat, ln + sh));
        assert(y as nat == rev(x as nat, usize::BITS as nat));
        assert(y as nat == a * pow2(sh) + b);
        let d = pow2(sh);
        assert((y as nat) / d == a) by (nonlinear_arith)
            requires
                y as nat == a * d + b,
                b < d,
        ;
    }
    let r = y >> shift;
    proof {
        let ln = log_n as nat;
        lemma_rev_bound(x as nat % pow2(ln), ln);
        assert forall|b: usize| b < log_n implies #[trigger] ((r >> b) & 1) == ((x >> ((log_n - 1 - b) as usize)) & 1) by {
            let c = (log_n - 1 - b) as usize;
            lemma_shr_bit(r, b);
            lemma_shr_bit(x, c);
            lemma_rev_bit(x as nat % pow2(ln), ln, b as nat);
            lemma_low_bit(x as nat, ln, c as nat);
        }
    }
    r
}

} // verus!
