//! The scalar field Fr of BLS12-381, modelled by the canonical integer in
//! `[0, r)` that each element stands for.

use vstd::prelude::*;
use vstd::arithmetic::power::pow;
use vstd::arithmetic::div_mod::{lemma_add_mod_noop, lemma_sub_mod_noop, lemma_mul_mod_noop,
    lemma_mod_twice, lemma_small_mod, lemma_mod_bound};
use ark_bls12_381::Fr;
use ark_ff::{BigInt, Field, PrimeField};
use ark_serialize::{CanonicalDeserialize, CanonicalSerialize};
use ark_std::UniformRand;

verus! {

/// The prime order `r` of the BLS12-381 scalar field (and of G1, G2 and GT).
pub open spec fn modulus() -> nat {
    52435875175126190479447740508185965837690552500527637822603658699938581184513nat
}

/// Reduction of an integer into `[0, r)`.
pub open spec fn md(x: int) -> int {
    x % (modulus() as int)
}

/// Integer value of four little-endian 64-bit limbs.
pub open spec fn limbs_value(l: [u64; 4]) -> nat {
    l[0] as nat + 0x1_0000_0000_0000_0000nat * (l[1] as nat + 0x1_0000_0000_0000_0000nat * (
    l[2] as nat + 0x1_0000_0000_0000_0000nat * l[3] as nat))
}

/// An element of Fr, held as the canonical representative in four
/// little-endian 64-bit limbs.
pub struct Scalar {
    pub(crate) limbs: [u64; 4],
}

impl Scalar {
    #[verifier::type_invariant]
    pub(crate) open spec fn canonical(&self) -> bool {
        self@ < modulus()
    }
}

impl View for Scalar {
    type V = nat;

    closed spec fn view(&self) -> nat {
        limbs_value(self.limbs)
    }
}

/// Integer value of a little-endian byte string.
pub open spec fn le_value(b: Seq<u8>) -> nat
    decreases b.len(),
{
    if b.len() == 0 {
        0
    } else {
        b[0] as nat + 256 * le_value(b.drop_first())
    }
}

/// A random number generator of `rand`, the one that `ark_std` re-exports.
#[verifier::external_type_specification]
#[verifier::external_body]
pub struct ExStdRng(ark_std::rand::rngs::StdRng);

/// Field addition of `ark_ff` on BLS12-381's Fr: the sum modulo r.
#[verifier::external_body]
fn fr_add(a: &Scalar, b: &Scalar) -> (c: Scalar)
    ensures
        c@ == md(a@ + b@ as int),
{
    let x = Fr::from(BigInt::new(a.limbs)) + Fr::from(BigInt::new(b.limbs));
    Scalar { limbs: x.into_bigint().0 }
}

/// Field subtraction of `ark_ff` on Fr: the difference modulo r.
#[verifier::external_body]
fn fr_sub(a: &Scalar, b: &Scalar) -> (c: Scalar)
    ensures
        c@ == md(a@ - b@),
{
    let x = Fr::from(BigInt::new(a.limbs)) - Fr::from(BigInt::new(b.limbs));
    Scalar { limbs: x.into_bigint().0 }
}

/// Field multiplication of `ark_ff` on Fr: the product modulo r.
#[verifier::external_body]
fn fr_mul(a: &Scalar, b: &Scalar) -> (c: Scalar)
    ensures
        c@ == md(a@ * b@ as int),
{
    let x = Fr::from(BigInt::new(a.limbs)) * Fr::from(BigInt::new(b.limbs));
    Scalar { limbs: x.into_bigint().0 }
}

/// `Field::inverse` of `ark_ff` on Fr: `None` for zero, otherwise the
/// element whose product with the argument is 1 modulo r.
#[verifier::external_body]
fn fr_inverse(a: &Scalar) -> (c: Option<Scalar>)
    ensures
        c is None <==> a@ == 0,
        c matches Some(v) ==> md(a@ * v@ as int) == 1,
{
    match Fr::from(BigInt::new(a.limbs)).inverse() {
        Some(x) => Some(Scalar { limbs: x.into_bigint().0 }),
        None => None,
    }
}

/// `Field::pow` of `ark_ff` on Fr with a one-limb exponent: the power modulo r.
#[verifier::external_body]
fn fr_pow(a: &Scalar, e: u64) -> (c: Scalar)
    ensures
        c@ == md(pow(a@ as int, e as nat)),
{
    let x = Fr::from(BigInt::new(a.limbs)).pow([e]);
    Scalar { limbs: x.into_bigint().0 }
}

/// `From<u64>` of `ark_ff` on Fr: the integer reduced modulo r.
#[verifier::external_body]
fn fr_from_u64(v: u64) -> (c: Scalar)
    ensures
        c@ == md(v as int),
{
    Scalar { limbs: Fr::from(v).into_bigint().0 }
}

/// `PartialEq` of `ark_ff` on Fr.
#[verifier::external_body]
fn fr_eq(a: &Scalar, b: &Scalar) -> (r: bool)
    ensures
        r == (a@ == b@),
{
    Fr::from(BigInt::new(a.limbs)) == Fr::from(BigInt::new(b.limbs))
}

/// `UniformRand::rand` of `ark_std` on Fr: a uniformly random element. Which
/// element comes back depends on the generator's state; nothing more is stated.
#[verifier::external_body]
fn fr_random(rng: &mut ark_std::rand::rngs::StdRng) -> (c: Scalar) {
    Scalar { limbs: Fr::rand(rng).into_bigint().0 }
}

/// `PrimeField::from_le_bytes_mod_order` of `ark_ff` on Fr: the little-endian
/// integer of the bytes, reduced modulo r.
#[verifier::external_body]
fn fr_from_le_bytes_mod_order(b: &[u8]) -> (c: Scalar)
    ensures
        c@ == md(le_value(b@) as int),
{
    Scalar { limbs: Fr::from_le_bytes_mod_order(b).into_bigint().0 }
}

/// `CanonicalSerialize::serialize_compressed` of `ark_ff` on Fr: the 32
/// little-endian bytes of the canonical value.
#[verifier::external_body]
fn fr_serialize_compressed(a: &Scalar) -> (out: Vec<u8>)
    ensures
        out@.len() == 32,
        le_value(out@) == a@,
{
    let mut out = Vec::new();
    Fr::from(BigInt::new(a.limbs)).serialize_compressed(&mut out).unwrap();
    out
}

/// `CanonicalDeserialize::deserialize_compressed` of `ark_ff` on Fr, on 32
/// bytes: their little-endian integer, refused when it is not below r.
#[verifier::external_body]
fn fr_deserialize_compressed(b: &[u8]) -> (out: Option<Scalar>)
    requires
        b@.len() == 32,
    ensures
        out is Some <==> le_value(b@) < modulus(),
        out is Some ==> out->0@ == le_value(b@),
{
    match Fr::deserialize_compressed(b) {
        Ok(x) => Some(Scalar { limbs: x.into_bigint().0 }),
        Err(_) => None,
    }
}

impl Scalar {
    /// The additive identity.
    pub fn zero() -> (c: Scalar)
        ensures
            c@ == 0,
    {
        Scalar { limbs: [0, 0, 0, 0] }
    }

    /// The multiplicative identity.
    pub fn one() -> (c: Scalar)
        ensures
            c@ == 1,
    {
        Scalar { limbs: [1, 0, 0, 0] }
    }

    /// The field element standing for an integer.
    pub fn from_u64(v: u64) -> (c: Scalar)
        ensures
            c@ == md(v as int),
    {
        fr_from_u64(v)
    }

    /// A copy of this element.
    pub fn duplicate(&self) -> (c: Scalar)
        ensures
            c@ == self@,
    {
        proof {
            use_type_invariant(self);
        }
        Scalar { limbs: self.limbs }
    }

    pub fn add(&self, other: &Scalar) -> (c: Scalar)
        ensures
            c@ == md(self@ + other@ as int),
    {
        fr_add(self, other)
    }

    pub fn sub(&self, other: &Scalar) -> (c: Scalar)
        ensures
            c@ == md(self@ - other@),
    {
        fr_sub(self, other)
    }

    pub fn mul(&self, other: &Scalar) -> (c: Scalar)
        ensures
            c@ == md(self@ * other@ as int),
    {
        fr_mul(self, other)
    }

    /// The multiplicative inverse; `None` exactly for zero.
    pub fn inverse(&self) -> (c: Option<Scalar>)
        ensures
            c is None <==> self@ == 0,
            c matches Some(v) ==> md(self@ * v@ as int) == 1,
    {
        fr_inverse(self)
    }

    /// `self` raised to the power `e`.
    pub fn pow(&self, e: u64) -> (c: Scalar)
        ensures
            c@ == md(pow(self@ as int, e as nat)),
    {
        fr_pow(self, e)
    }

    /// Whether two elements are equal.
    pub fn equals(&self, other: &Scalar) -> (r: bool)
        ensures
            r == (self@ == other@),
    {
        fr_eq(self, other)
    }

    /// A uniformly random element drawn from `rng`.
    pub fn random(rng: &mut ark_std::rand::rngs::StdRng) -> (c: Scalar)
        ensures
            c@ < modulus(),
    {
        let c = fr_random(rng);
        proof {
            use_type_invariant(&c);
        }
        c
    }

    /// The 32-byte compressed encoding: the little-endian bytes of the value.
    pub fn to_compressed_bytes(&self) -> (b: Vec<u8>)
        ensures
            b@.len() == 32,
            le_value(b@) == self@,
    {
        fr_serialize_compressed(self)
    }

    /// Reads an element back from its 32-byte compressed encoding: `None`
    /// exactly when the little-endian integer of the bytes is not below r.
    pub fn from_compressed_bytes(b: &[u8]) -> (c: Option<Scalar>)
        requires
            b@.len() == 32,
        ensures
            c is Some <==> le_value(b@) < modulus(),
            c matches Some(v) ==> v@ == le_value(b@),
    {
        fr_deserialize_compressed(b)
    }

    /// The little-endian integer of `bytes`, reduced modulo r.
    pub fn from_le_bytes_mod_order(bytes: &[u8]) -> (c: Scalar)
        ensures
            c@ == md(le_value(bytes@) as int),
    {
        fr_from_le_bytes_mod_order(bytes)
    }
}

/// `c` is a value that [`Scalar::random`] returned on some call: one draw
/// from a generator, and not a value made up in its place.
pub open spec fn is_drawn(c: Scalar) -> bool {
    exists|a: (&mut ark_std::rand::rngs::StdRng,)| #[trigger] call_ensures(Scalar::random, a, c)
}

/// Reduction commutes with addition.
pub proof fn lemma_md_add(x: int, y: int)
    ensures
        md(x + y) == md(md(x) + md(y)),
{
    lemma_add_mod_noop(x, y, modulus() as int);
}

/// Reduction commutes with subtraction.
pub proof fn lemma_md_sub(x: int, y: int)
    ensures
        md(x - y) == md(md(x) - md(y)),
{
    lemma_sub_mod_noop(x, y, modulus() as int);
}

/// Reduction commutes with multiplication.
pub proof fn lemma_md_mul(x: int, y: int)
    ensures
        md(x * y) == md(md(x) * md(y)),
{
    lemma_mul_mod_noop(x, y, modulus() as int);
}

/// Reduction is idempotent and keeps what is already reduced.
pub proof fn lemma_md_small(x: int)
    ensures
        md(md(x)) == md(x),
        0 <= md(x) < modulus(),
        0 <= x < modulus() ==> md(x) == x,
{
    lemma_mod_twice(x, modulus() as int);
    lemma_mod_bound(x, modulus() as int);
    if 0 <= x < modulus() {
        lemma_small_mod(x as nat, modulus());
    }
}

/// Multiplying by an element congruent to `-1` negates.
pub proof fn lemma_md_mul_neg_one(x: int, y: int)
    requires
        md(y) == modulus() - 1,
    ensures
        md(x * y) == md(-x),
{
    lemma_md_mul(x, y);
    lemma_md_mul(x, -1);
    assert(md(-1) == modulus() - 1);
    assert(x * -1 == -x);
}

/// `y` is the reduced inverse of `x` modulo r.
pub open spec fn is_inv(x: int, y: int) -> bool {
    0 <= y < modulus() && md(x * y) == 1
}

/// The inverse of `x` modulo r (when `x` is not a multiple of r).
pub open spec fn inv(x: int) -> int {
    choose|y: int| #[trigger] is_inv(x, y)
}

/// Any reduced `y` with `x·y = 1` modulo r is the inverse of `x`.
pub proof fn lemma_inv_unique(x: int, y: int)
    requires
        0 <= y < modulus(),
        md(x * y) == 1,
    ensures
        inv(x) == y,
{
    assert(is_inv(x, y));
    let z = inv(x);
    assert(0 <= z < modulus() && md(x * z) == 1);
    // y = y·(x·z) = (x·y)·z = z modulo r
    lemma_md_mul(y, x * z);
    lemma_md_mul(x * y, z);
    assert(y * (x * z) == (x * y) * z) by (nonlinear_arith);
    lemma_md_small(y);
    lemma_md_small(z);
    assert(md(y * (x * z)) == md(md(y) * 1));
    assert(md((x * y) * z) == md(1 * md(z)));
}

/// Sums of congruent terms are congruent.
pub proof fn lemma_cong_add(x: int, y: int, xc: int, yc: int)
    requires
        md(xc) == md(x),
        md(yc) == md(y),
    ensures
        md(xc + yc) == md(x + y),
{
    lemma_md_add(xc, yc);
    lemma_md_add(x, y);
}

/// Differences of congruent terms are congruent.
pub proof fn lemma_cong_sub(x: int, y: int, xc: int, yc: int)
    requires
        md(xc) == md(x),
        md(yc) == md(y),
    ensures
        md(xc - yc) == md(x - y),
{
    lemma_md_sub(xc, yc);
    lemma_md_sub(x, y);
}

/// Products of congruent factors are congruent.
pub proof fn lemma_cong_mul(x: int, y: int, xc: int, yc: int)
    requires
        md(xc) == md(x),
        md(yc) == md(y),
    ensures
        md(xc * yc) == md(x * y),
{
    lemma_md_mul(xc, yc);
    lemma_md_mul(x, y);
}

/// The inverse depends on its argument only modulo r.
pub proof fn lemma_inv_md(x: int, v: int)
    requires
        0 <= v < modulus(),
        md(md(x) * v) == 1,
    ensures
        inv(x) == v,
        inv(md(x)) == v,
        md(x * v) == 1,
{
    lemma_md_mul(md(x), v);
    lemma_md_mul(x, v);
    lemma_md_small(x);
    lemma_md_small(v);
    lemma_inv_unique(x, v);
    lemma_inv_unique(md(x), v);
}


/// Distinct reduced elements have a difference that is not a multiple of r.
pub proof fn lemma_diff_nonzero(a: int, b: int)
    requires
        0 <= a < modulus(),
        0 <= b < modulus(),
        a != b,
    ensures
        md(a - b) != 0,
{
    if a > b {
        lemma_md_small(a - b);
    } else {
        let y = a - b + modulus();
        lemma_md_add(a - b, modulus() as int);
        lemma_md_small(y);
        lemma_md_small(a - b);
    }
}

/// Products of elements and of their inverses are inverse to each other.
pub proof fn lemma_inv_product(a: int, b: int, ai: int, bi: int)
    requires
        md(a * ai) == 1,
        md(b * bi) == 1,
    ensures
        md(md(a * b) * md(ai * bi)) == 1,
{
    lemma_md_mul(a * b, ai * bi);
    lemma_md_mul(a * ai, b * bi);
    assert((a * b) * (ai * bi) == (a * ai) * (b * bi)) by (nonlinear_arith);
    lemma_md_small(1);
    lemma_md_small(a * b);
    lemma_md_small(ai * bi);
}


/// `x` has an inverse modulo r.
pub open spec fn invertible(x: int) -> bool {
    md(x * inv(x)) == 1
}

/// A multiple of r has no inverse; an invertible element is not a multiple
/// of r.
pub proof fn lemma_invertible_nonzero(x: int)
    ensures
        invertible(x) ==> md(x) != 0,
{
    if md(x) == 0 {
        lemma_md_mul(x, inv(x));
        lemma_md_small(inv(x));
        assert(md(0 * md(inv(x))) == 0);
    }
}

/// An element with a known inverse is invertible, with that inverse.
pub proof fn lemma_invertible_from(x: int, y: int)
    requires
        0 <= y < modulus(),
        md(x * y) == 1,
    ensures
        invertible(x),
        inv(x) == y,
{
    lemma_inv_unique(x, y);
}


/// Reduction turns a unit into 1, so `v − 1` vanishes.
pub proof fn lemma_unit_minus_one(v: int)
    requires
        md(v) == 1,
    ensures
        md(v - 1) == 0,
{
    lemma_md_sub(v, 1);
    lemma_md_small(1);
    lemma_md_small(0);
}

/// A combination of multiples of r is a multiple of r.
pub proof fn lemma_combo(c1: int, g1: int, c2: int, g2: int)
    requires
        md(g1) == 0,
        md(g2) == 0,
    ensures
        md(c1 * g1 + c2 * g2) == 0,
{
    lemma_md_mul(c1, g1);
    lemma_md_mul(c2, g2);
    lemma_md_small(c1);
    lemma_md_small(c2);
    assert(md(md(c1) * 0) == 0 && md(md(c2) * 0) == 0) by {
        lemma_md_small(0);
    }
    lemma_md_add(c1 * g1, c2 * g2);
    lemma_md_small(0);
}

/// Two integers with a difference divisible by r are congruent.
pub proof fn lemma_cong_of_diff(a: int, b: int)
    requires
        md(a - b) == 0,
    ensures
        md(a) == md(b),
{
    lemma_md_add(a - b, b);
    lemma_md_small(b);
    lemma_md_small(md(b));
}

/// Two integers are congruent exactly when their difference is a multiple
/// of r.
pub proof fn lemma_cong_iff_diff(a: int, b: int)
    ensures
        md(a) == md(b) <==> md(a - b) == 0,
{
    lemma_md_sub(a, b);
    lemma_md_small(a);
    lemma_md_small(b);
    lemma_md_small(0);
    if md(a - b) == 0 {
        lemma_cong_of_diff(a, b);
    }
}

/// A multiple of r times anything is a multiple of r.
pub proof fn lemma_zero_factor(a: int, b: int)
    requires
        md(a) == 0,
    ensures
        md(a * b) == 0,
{
    lemma_md_mul(a, b);
    lemma_md_small(0);
    assert(md(a) * md(b) == 0);
}

/// An invertible factor cancels: if `a·b` is a multiple of r and `a` has an
/// inverse, then `b` is a multiple of r.
pub proof fn lemma_unit_cancel(a: int, b: int)
    requires
        invertible(a),
        md(a * b) == 0,
    ensures
        md(b) == 0,
{
    let ai = inv(a);
    // ai·(a·b) = (a·ai)·b
    assert(ai * (a * b) == (a * ai) * b) by (nonlinear_arith);
    lemma_md_mul(ai, a * b);
    lemma_md_small(0);
    assert(md(ai) * md(a * b) == 0);
    lemma_md_mul(a * ai, b);
    lemma_md_small(b);
    assert(md(a * ai) * md(b) == md(b));
    lemma_md_small(md(b));
}

} // verus!
