//! The groups of the BLS12-381 pairing: G1, G2 and the target group GT.
//!
//! Each group is cyclic of the prime order r, generated by its standard
//! generator (for GT, the pairing of the generators of G1 and G2). An element
//! is modelled by its discrete logarithm: the `k` in `[0, r)` with
//! `element = k · generator`. The element itself is held as the uncompressed
//! encoding that `ark_serialize` gives of it.

use vstd::prelude::*;
use crate::field::{Scalar, modulus, md, lemma_md_small};
use ark_bls12_381::{Bls12_381, Fr, G1Affine, G1Projective, G2Affine, G2Projective};
use ark_ec::pairing::{Pairing, PairingOutput};
use ark_ec::{CurveGroup, PrimeGroup, VariableBaseMSM};
use ark_ff::BigInt;
use ark_serialize::{CanonicalDeserialize, CanonicalSerialize};

verus! {

/// Operations shared by the field and the three groups, all of which are
/// cyclic of order r: an element is modelled by its discrete logarithm.
pub trait GroupElem: Sized {
    /// The discrete logarithm of the element, in `[0, r)`.
    spec fn dlog(&self) -> int;

    fn identity() -> (r: Self)
        ensures
            r.dlog() == 0,
    ;

    fn plus(&self, other: &Self) -> (r: Self)
        ensures
            r.dlog() == md(self.dlog() + other.dlog() as int),
    ;

    fn minus(&self, other: &Self) -> (r: Self)
        ensures
            r.dlog() == md(self.dlog() - other.dlog()),
    ;

    fn times(&self, s: &Scalar) -> (r: Self)
        ensures
            r.dlog() == md(self.dlog() * s@ as int),
    ;

    fn duplicate(&self) -> (r: Self)
        ensures
            r.dlog() == self.dlog(),
    ;

    fn equals(&self, other: &Self) -> (r: bool)
        ensures
            r == (self.dlog() == other.dlog()),
    ;

    /// Every discrete logarithm is below r.
    proof fn lemma_dlog_bound(&self)
        ensures
            0 <= self.dlog() < modulus(),
    ;
}

impl GroupElem for Scalar {
    open spec fn dlog(&self) -> int {
        (self@ % modulus()) as int
    }

    fn identity() -> (r: Self) {
        proof {
            lemma_md_small(0);
        }
        Scalar::zero()
    }

    fn plus(&self, other: &Self) -> (r: Self) {
        proof {
            use_type_invariant(self);
            use_type_invariant(other);
            lemma_md_small(self@ as int);
            lemma_md_small(other@ as int);
        }
        let r = self.add(other);
        proof {
            use_type_invariant(&r);
            lemma_md_small(r@ as int);
        }
        r
    }

    fn minus(&self, other: &Self) -> (r: Self) {
        proof {
            use_type_invariant(self);
            use_type_invariant(other);
            lemma_md_small(self@ as int);
            lemma_md_small(other@ as int);
        }
        let r = self.sub(other);
        proof {
            use_type_invariant(&r);
            lemma_md_small(r@ as int);
        }
        r
    }

    fn times(&self, s: &Scalar) -> (r: Self) {
        proof {
            use_type_invariant(self);
            lemma_md_small(self@ as int);
        }
        let r = self.mul(s);
        proof {
            use_type_invariant(&r);
            lemma_md_small(r@ as int);
        }
        r
    }

    fn duplicate(&self) -> (r: Self) {
        Scalar::duplicate(self)
    }

    fn equals(&self, other: &Self) -> (r: bool) {
        proof {
            use_type_invariant(self);
            use_type_invariant(other);
            lemma_md_small(self@ as int);
            lemma_md_small(other@ as int);
        }
        Scalar::equals(self, other)
    }

    proof fn lemma_dlog_bound(&self) {
        lemma_md_small(self@ as int);
    }
}

/// The uncompressed encoding of `k · g` for the standard generator `g` of
/// G1, as `ark_serialize` writes the affine point.
pub uninterp spec fn g1_point(k: nat) -> Seq<u8>;

/// An element of the group G1 of BLS12-381.
pub struct G1 {
    pub(crate) bytes: Vec<u8>,
    pub(crate) k: Ghost<nat>,
}

impl G1 {
    #[verifier::type_invariant]
    pub(crate) open spec fn wf(&self) -> bool {
        self.k@ < modulus() && self.bytes@ == g1_point(self.k@)
    }
}

/// `PrimeGroup::generator` of G1 times a scalar, with `ark_ec`'s scalar
/// multiplication, encoded: the encoding of `s · g`.
#[verifier::external_body]
fn g1_generator_mul(s: &Scalar) -> (out: Vec<u8>)
    ensures
        out@ == g1_point(s@),
{
    let p = G1Projective::generator() * Fr::from(BigInt::new(s.limbs));
    let mut out = Vec::new();
    p.into_affine().serialize_uncompressed(&mut out).unwrap();
    out
}

/// Group addition of `ark_ec` on G1: the discrete logarithms add modulo r.
#[verifier::external_body]
fn g1_add(a: &G1, b: &G1) -> (out: Vec<u8>)
    ensures
        out@ == g1_point(md(a.k@ + b.k@ as int) as nat),
{
    let x = G1Affine::deserialize_uncompressed_unchecked(&a.bytes[..]).unwrap();
    let y = G1Affine::deserialize_uncompressed_unchecked(&b.bytes[..]).unwrap();
    let mut out = Vec::new();
    (x + y).into_affine().serialize_uncompressed(&mut out).unwrap();
    out
}

/// Group subtraction of `ark_ec` on G1: the discrete logarithms subtract
/// modulo r.
#[verifier::external_body]
fn g1_sub(a: &G1, b: &G1) -> (out: Vec<u8>)
    ensures
        out@ == g1_point(md(a.k@ - b.k@) as nat),
{
    let x = G1Affine::deserialize_uncompressed_unchecked(&a.bytes[..]).unwrap();
    let y = G1Affine::deserialize_uncompressed_unchecked(&b.bytes[..]).unwrap();
    let mut out = Vec::new();
    (G1Projective::from(x) - y).into_affine().serialize_uncompressed(&mut out).unwrap();
    out
}

/// Scalar multiplication of `ark_ec` on G1: the discrete logarithm is
/// multiplied by the scalar modulo r.
#[verifier::external_body]
fn g1_mul(a: &G1, s: &Scalar) -> (out: Vec<u8>)
    ensures
        out@ == g1_point(md(a.k@ * s@ as int) as nat),
{
    let x = G1Affine::deserialize_uncompressed_unchecked(&a.bytes[..]).unwrap();
    let mut out = Vec::new();
    (x * Fr::from(BigInt::new(s.limbs))).into_affine().serialize_uncompressed(&mut out).unwrap();
    out
}

/// `PartialEq` of `ark_ec` on affine points of G1: two elements are equal
/// exactly when their discrete logarithms are.
#[verifier::external_body]
fn g1_eq(a: &G1, b: &G1) -> (r: bool)
    ensures
        r == (a.k@ == b.k@),
{
    let x = G1Affine::deserialize_uncompressed_unchecked(&a.bytes[..]).unwrap();
    let y = G1Affine::deserialize_uncompressed_unchecked(&b.bytes[..]).unwrap();
    x == y
}

impl G1 {
    /// `s · g` for the standard generator `g`.
    pub fn mul_generator(s: &Scalar) -> (r: G1)
        ensures
            r.dlog() == s@,
    {
        proof {
            use_type_invariant(s);
        }
        G1 { bytes: g1_generator_mul(s), k: Ghost(s@) }
    }

    /// The standard generator.
    pub fn generator() -> (r: G1)
        ensures
            r.dlog() == 1,
    {
        G1::mul_generator(&Scalar::one())
    }

    /// A random element: the generator times a scalar that `rng` draws.
    /// Which element comes back rests on the generator's state, so the
    /// contract states only what holds of every outcome.
    pub fn random(rng: &mut ark_std::rand::rngs::StdRng) -> (r: G1)
        ensures
            r.dlog() < modulus(),
    {
        G1::mul_generator(&Scalar::random(rng))
    }

    /// The uncompressed encoding of the element.
    pub fn to_bytes(&self) -> (r: Vec<u8>)
        ensures
            r@ == g1_point(self.dlog() as nat),
    {
        proof {
            use_type_invariant(self);
        }
        self.bytes.clone()
    }
}

impl GroupElem for G1 {
    closed spec fn dlog(&self) -> int {
        (self.k@ % modulus()) as int
    }

    fn identity() -> (r: Self) {
        proof {
            lemma_md_small(0);
        }
        G1::mul_generator(&Scalar::zero())
    }

    fn plus(&self, other: &Self) -> (r: Self) {
        proof {
            use_type_invariant(self);
            use_type_invariant(other);
            lemma_md_small(self.k@ as int);
            lemma_md_small(other.k@ as int);
            lemma_md_small(self.k@ + other.k@ as int);
            lemma_md_small(self.k@ - other.k@);
        }
        G1 { bytes: g1_add(self, other), k: Ghost(md(self.k@ + other.k@ as int) as nat) }
    }

    fn minus(&self, other: &Self) -> (r: Self) {
        proof {
            use_type_invariant(self);
            use_type_invariant(other);
            lemma_md_small(self.k@ as int);
            lemma_md_small(other.k@ as int);
            lemma_md_small(self.k@ + other.k@ as int);
            lemma_md_small(self.k@ - other.k@);
        }
        G1 { bytes: g1_sub(self, other), k: Ghost(md(self.k@ - other.k@) as nat) }
    }

    fn times(&self, s: &Scalar) -> (r: Self) {
        proof {
            use_type_invariant(self);
            lemma_md_small(self.k@ as int);
            lemma_md_small(self.k@ * s@ as int);
        }
        G1 { bytes: g1_mul(self, s), k: Ghost(md(self.k@ * s@ as int) as nat) }
    }

    fn duplicate(&self) -> (r: Self) {
        proof {
            use_type_invariant(self);
        }
        G1 { bytes: self.bytes.clone(), k: Ghost(self.k@) }
    }

    fn equals(&self, other: &Self) -> (r: bool) {
        proof {
            use_type_invariant(self);
            use_type_invariant(other);
            lemma_md_small(self.k@ as int);
            lemma_md_small(other.k@ as int);
        }
        g1_eq(self, other)
    }

    proof fn lemma_dlog_bound(&self) {
        lemma_md_small(self.k@ as int);
    }
}

/// The uncompressed encoding of `k · g` for the standard generator `g` of
/// G2, as `ark_serialize` writes the affine point.
pub uninterp spec fn g2_point(k: nat) -> Seq<u8>;

/// An element of the group G2 of BLS12-381.
pub struct G2 {
    pub(crate) bytes: Vec<u8>,
    pub(crate) k: Ghost<nat>,
}

impl G2 {
    #[verifier::type_invariant]
    pub(crate) open spec fn wf(&self) -> bool {
        self.k@ < modulus() && self.bytes@ == g2_point(self.k@)
    }
}

/// `PrimeGroup::generator` of G2 times a scalar, with `ark_ec`'s scalar
/// multiplication, encoded: the encoding of `s · g`.
#[verifier::external_body]
fn g2_generator_mul(s: &Scalar) -> (out: Vec<u8>)
    ensures
        out@ == g2_point(s@),
{
    let p = G2Projective::generator() * Fr::from(BigInt::new(s.limbs));
    let mut out = Vec::new();
    p.into_affine().serialize_uncompressed(&mut out).unwrap();
    out
}

/// Group addition of `ark_ec` on G2: the discrete logarithms add modulo r.
#[verifier::external_body]
fn g2_add(a: &G2, b: &G2) -> (out: Vec<u8>)
    ensures
        out@ == g2_point(md(a.k@ + b.k@ as int) as nat),
{
    let x = G2Affine::deserialize_uncompressed_unchecked(&a.bytes[..]).unwrap();
    let y = G2Affine::deserialize_uncompressed_unchecked(&b.bytes[..]).unwrap();
    let mut out = Vec::new();
    (x + y).into_affine().serialize_uncompressed(&mut out).unwrap();
    out
}

/// Group subtraction of `ark_ec` on G2: the discrete logarithms subtract
/// modulo r.
#[verifier::external_body]
fn g2_sub(a: &G2, b: &G2) -> (out: Vec<u8>)
    ensures
        out@ == g2_point(md(a.k@ - b.k@) as nat),
{
    let x = G2Affine::deserialize_uncompressed_unchecked(&a.bytes[..]).unwrap();
    let y = G2Affine::deserialize_uncompressed_unchecked(&b.bytes[..]).unwrap();
    let mut out = Vec::new();
    (G2Projective::from(x) - y).into_affine().serialize_uncompressed(&mut out).unwrap();
    out
}

/// Scalar multiplication of `ark_ec` on G2: the discrete logarithm is
/// multiplied by the scalar modulo r.
#[verifier::external_body]
fn g2_mul(a: &G2, s: &Scalar) -> (out: Vec<u8>)
    ensures
        out@ == g2_point(md(a.k@ * s@ as int) as nat),
{
    let x = G2Affine::deserialize_uncompressed_unchecked(&a.bytes[..]).unwrap();
    let mut out = Vec::new();
    (x * Fr::from(BigInt::new(s.limbs))).into_affine().serialize_uncompressed(&mut out).unwrap();
    out
}

/// `PartialEq` of `ark_ec` on affine points of G2: two elements are equal
/// exactly when their discrete logarithms are.
#[verifier::external_body]
fn g2_eq(a: &G2, b: &G2) -> (r: bool)
    ensures
        r == (a.k@ == b.k@),
{
    let x = G2Affine::deserialize_uncompressed_unchecked(&a.bytes[..]).unwrap();
    let y = G2Affine::deserialize_uncompressed_unchecked(&b.bytes[..]).unwrap();
    x == y
}

impl G2 {
    /// `s · g` for the standard generator `g`.
    pub fn mul_generator(s: &Scalar) -> (r: G2)
        ensures
            r.dlog() == s@,
    {
        proof {
            use_type_invariant(s);
        }
        G2 { bytes: g2_generator_mul(s), k: Ghost(s@) }
    }

    /// The standard generator.
    pub fn generator() -> (r: G2)
        ensures
            r.dlog() == 1,
    {
        G2::mul_generator(&Scalar::one())
    }

    /// A random element: the generator times a scalar that `rng` draws.
    /// Which element comes back rests on the generator's state, so the
    /// contract states only what holds of every outcome.
    pub fn random(rng: &mut ark_std::rand::rngs::StdRng) -> (r: G2)
        ensures
            r.dlog() < modulus(),
    {
        G2::mul_generator(&Scalar::random(rng))
    }

    /// The uncompressed encoding of the element.
    pub fn to_bytes(&self) -> (r: Vec<u8>)
        ensures
            r@ == g2_point(self.dlog() as nat),
    {
        proof {
            use_type_invariant(self);
        }
        self.bytes.clone()
    }
}

impl GroupElem for G2 {
    closed spec fn dlog(&self) -> int {
        (self.k@ % modulus()) as int
    }

    fn identity() -> (r: Self) {
        proof {
            lemma_md_small(0);
        }
        G2::mul_generator(&Scalar::zero())
    }

    fn plus(&self, other: &Self) -> (r: Self) {
        proof {
            use_type_invariant(self);
            use_type_invariant(other);
            lemma_md_small(self.k@ as int);
            lemma_md_small(other.k@ as int);
            lemma_md_small(self.k@ + other.k@ as int);
            lemma_md_small(self.k@ - other.k@);
        }
        G2 { bytes: g2_add(self, other), k: Ghost(md(self.k@ + other.k@ as int) as nat) }
    }

    fn minus(&self, other: &Self) -> (r: Self) {
        proof {
            use_type_invariant(self);
            use_type_invariant(other);
            lemma_md_small(self.k@ as int);
            lemma_md_small(other.k@ as int);
            lemma_md_small(self.k@ + other.k@ as int);
            lemma_md_small(self.k@ - other.k@);
        }
        G2 { bytes: g2_sub(self, other), k: Ghost(md(self.k@ - other.k@) as nat) }
    }

    fn times(&self, s: &Scalar) -> (r: Self) {
        proof {
            use_type_invariant(self);
            lemma_md_small(self.k@ as int);
            lemma_md_small(self.k@ * s@ as int);
        }
        G2 { bytes: g2_mul(self, s), k: Ghost(md(self.k@ * s@ as int) as nat) }
    }

    fn duplicate(&self) -> (r: Self) {
        proof {
            use_type_invariant(self);
        }
        G2 { bytes: self.bytes.clone(), k: Ghost(self.k@) }
    }

    fn equals(&self, other: &Self) -> (r: bool) {
        proof {
            use_type_invariant(self);
            use_type_invariant(other);
            lemma_md_small(self.k@ as int);
            lemma_md_small(other.k@ as int);
        }
        g2_eq(self, other)
    }

    proof fn lemma_dlog_bound(&self) {
        lemma_md_small(self.k@ as int);
    }
}

/// The uncompressed encoding of `k · e(g1, g2)`, the `k`-th multiple of the
/// standard generator of GT (written additively, as `ark_ec` does).
pub uninterp spec fn gt_point(k: nat) -> Seq<u8>;

/// An element of the target group GT of the BLS12-381 pairing.
pub struct Gt {
    pub(crate) bytes: Vec<u8>,
    pub(crate) k: Ghost<nat>,
}

impl Gt {
    #[verifier::type_invariant]
    pub(crate) open spec fn wf(&self) -> bool {
        self.k@ < modulus() && self.bytes@ == gt_point(self.k@)
    }
}

/// `PrimeGroup::generator` of `PairingOutput` (the pairing of the generators
/// of G1 and G2) times a scalar, encoded: the encoding of `s · e(g1, g2)`.
#[verifier::external_body]
fn gt_generator_mul(s: &Scalar) -> (out: Vec<u8>)
    ensures
        out@ == gt_point(s@),
{
    let p = PairingOutput::<Bls12_381>::generator() * Fr::from(BigInt::new(s.limbs));
    let mut out = Vec::new();
    p.serialize_uncompressed(&mut out).unwrap();
    out
}

/// Group operation of `PairingOutput` (multiplication in Fq12, written
/// additively): the discrete logarithms add modulo r.
#[verifier::external_body]
fn gt_add(a: &Gt, b: &Gt) -> (out: Vec<u8>)
    ensures
        out@ == gt_point(md(a.k@ + b.k@ as int) as nat),
{
    let x = PairingOutput::<Bls12_381>::deserialize_uncompressed_unchecked(&a.bytes[..]).unwrap();
    let y = PairingOutput::<Bls12_381>::deserialize_uncompressed_unchecked(&b.bytes[..]).unwrap();
    let mut out = Vec::new();
    (x + y).serialize_uncompressed(&mut out).unwrap();
    out
}

/// Subtraction of `PairingOutput`: the discrete logarithms subtract modulo r.
#[verifier::external_body]
fn gt_sub(a: &Gt, b: &Gt) -> (out: Vec<u8>)
    ensures
        out@ == gt_point(md(a.k@ - b.k@) as nat),
{
    let x = PairingOutput::<Bls12_381>::deserialize_uncompressed_unchecked(&a.bytes[..]).unwrap();
    let y = PairingOutput::<Bls12_381>::deserialize_uncompressed_unchecked(&b.bytes[..]).unwrap();
    let mut out = Vec::new();
    (x - y).serialize_uncompressed(&mut out).unwrap();
    out
}

/// Scalar multiplication of `PairingOutput` (exponentiation in Fq12): the
/// discrete logarithm is multiplied by the scalar modulo r.
#[verifier::external_body]
fn gt_mul(a: &Gt, s: &Scalar) -> (out: Vec<u8>)
    ensures
        out@ == gt_point(md(a.k@ * s@ as int) as nat),
{
    let x = PairingOutput::<Bls12_381>::deserialize_uncompressed_unchecked(&a.bytes[..]).unwrap();
    let mut out = Vec::new();
    (x * Fr::from(BigInt::new(s.limbs))).serialize_uncompressed(&mut out).unwrap();
    out
}

/// `PartialEq` of `PairingOutput`: equal exactly when the discrete logarithms are.
#[verifier::external_body]
fn gt_eq(a: &Gt, b: &Gt) -> (r: bool)
    ensures
        r == (a.k@ == b.k@),
{
    let x = PairingOutput::<Bls12_381>::deserialize_uncompressed_unchecked(&a.bytes[..]).unwrap();
    let y = PairingOutput::<Bls12_381>::deserialize_uncompressed_unchecked(&b.bytes[..]).unwrap();
    x == y
}

/// `Pairing::pairing` of BLS12-381: bilinear and non-degenerate, so the pairing
/// of `a · g1` and `b · g2` is `(a b) · e(g1, g2)`.
#[verifier::external_body]
fn gt_pairing(a: &G1, b: &G2) -> (out: Vec<u8>)
    ensures
        out@ == gt_point(md(a.k@ * b.k@ as int) as nat),
{
    let x = G1Affine::deserialize_uncompressed_unchecked(&a.bytes[..]).unwrap();
    let y = G2Affine::deserialize_uncompressed_unchecked(&b.bytes[..]).unwrap();
    let mut out = Vec::new();
    Bls12_381::pairing(x, y).serialize_uncompressed(&mut out).unwrap();
    out
}

/// Sum of the products of the discrete logarithms of paired entries.
pub open spec fn pairing_sum(a: Seq<G1>, b: Seq<G2>, n: int) -> int
    decreases n,
{
    if n <= 0 {
        0
    } else {
        pairing_sum(a, b, n - 1) + a[n - 1].dlog() * b[n - 1].dlog()
    }
}

/// `Pairing::multi_pairing` of BLS12-381: the sum in GT of the pairings of
/// paired entries.
#[verifier::external_body]
fn gt_multi_pairing(a: &Vec<G1>, b: &Vec<G2>) -> (out: Vec<u8>)
    requires
        a.len() == b.len(),
    ensures
        out@ == gt_point(md(pairing_sum(a@, b@, a.len() as int)) as nat),
{
    let mut xs = Vec::new();
    for p in a.iter() {
        xs.push(G1Affine::deserialize_uncompressed_unchecked(&p.bytes[..]).unwrap());
    }
    let mut ys = Vec::new();
    for q in b.iter() {
        ys.push(G2Affine::deserialize_uncompressed_unchecked(&q.bytes[..]).unwrap());
    }
    let mut out = Vec::new();
    Bls12_381::multi_pairing(xs, ys).serialize_uncompressed(&mut out).unwrap();
    out
}

/// Sum of the products of the discrete logarithms of bases and scalars.
pub open spec fn msm_sum(bases: Seq<G1>, scalars: Seq<Scalar>, n: int) -> int
    decreases n,
{
    if n <= 0 {
        0
    } else {
        msm_sum(bases, scalars, n - 1) + bases[n - 1].dlog() * scalars[n - 1]@
    }
}

/// `VariableBaseMSM::msm` of `ark_ec` on G1: the multi-scalar product
/// `Σ s_i · P_i`.
#[verifier::external_body]
fn g1_msm(bases: &Vec<G1>, scalars: &Vec<Scalar>) -> (out: Vec<u8>)
    requires
        bases.len() == scalars.len(),
    ensures
        out@ == g1_point(md(msm_sum(bases@, scalars@, bases.len() as int)) as nat),
{
    let mut xs = Vec::new();
    for p in bases.iter() {
        xs.push(G1Affine::deserialize_uncompressed_unchecked(&p.bytes[..]).unwrap());
    }
    let ss: Vec<Fr> = scalars.iter().map(|s| Fr::from(BigInt::new(s.limbs))).collect();
    let mut out = Vec::new();
    G1Projective::msm(&xs, &ss).unwrap().into_affine().serialize_uncompressed(&mut out).unwrap();
    out
}

/// The compressed encoding of `k · g1`, as `ark_serialize` writes it.
pub uninterp spec fn g1_compressed(k: nat) -> Seq<u8>;

/// `CanonicalSerialize::serialize_compressed` of an affine point of G1: 48
/// bytes.
#[verifier::external_body]
fn g1_serialize_compressed(a: &G1) -> (out: Vec<u8>)
    ensures
        out@ == g1_compressed(a.k@),
        out@.len() == 48,
{
    let x = G1Affine::deserialize_uncompressed_unchecked(&a.bytes[..]).unwrap();
    let mut out = Vec::new();
    x.serialize_compressed(&mut out).unwrap();
    out
}

/// The compressed encoding of `k · e(g1, g2)`, as `ark_serialize` writes it.
pub uninterp spec fn gt_compressed(k: nat) -> Seq<u8>;

/// `CanonicalSerialize::serialize_compressed` of `PairingOutput`.
#[verifier::external_body]
fn gt_serialize_compressed(a: &Gt) -> (out: Vec<u8>)
    ensures
        out@ == gt_compressed(a.k@),
{
    let x = PairingOutput::<Bls12_381>::deserialize_uncompressed_unchecked(&a.bytes[..]).unwrap();
    let mut out = Vec::new();
    x.serialize_compressed(&mut out).unwrap();
    out
}

/// `CanonicalDeserialize::deserialize_compressed` of an affine point of G1,
/// with validation, on 48 bytes, re-encoded uncompressed. The compressed
/// encoding of an element reads back as that element. Bytes that it accepts
/// are the compressed encoding of an element of the group (flags, a
/// canonical coordinate and subgroup membership are all checked), and the
/// compressed encoding is one-to-one, so exactly one element has them.
#[verifier::external_body]
fn g1_deserialize_compressed(b: &[u8]) -> (out: Option<Vec<u8>>)
    requires
        b@.len() == 48,
    ensures
        forall|k: nat|
            k < modulus() && b@ == #[trigger] g1_compressed(k) ==> out is Some && out->0@ == g1_point(k),
        out is Some ==> exists|k: nat|
            k < modulus() && b@ == #[trigger] g1_compressed(k) && out->0@ == g1_point(k) && (forall|k2: nat|
                k2 < modulus() && b@ == #[trigger] g1_compressed(k2) ==> k2 == k),
{
    match G1Affine::deserialize_compressed(b) {
        Ok(x) => {
            let mut out = Vec::new();
            x.serialize_uncompressed(&mut out).unwrap();
            Some(out)
        },
        Err(_) => None,
    }
}

impl G1 {
    /// The compressed encoding of the element.
    pub fn to_compressed_bytes(&self) -> (r: Vec<u8>)
        ensures
            r@ == g1_compressed(self.dlog() as nat),
            r@.len() == 48,
    {
        proof {
            use_type_invariant(self);
            lemma_md_small(self.k@ as int);
        }
        g1_serialize_compressed(self)
    }

    /// Reads an element back from its 48-byte compressed encoding: `None`
    /// exactly when the bytes encode no element of the group.
    pub fn from_compressed_bytes(b: &[u8]) -> (r: Option<G1>)
        requires
            b@.len() == 48,
        ensures
            r is Some <==> exists|k: nat| k < modulus() && b@ == #[trigger] g1_compressed(k),
            r matches Some(q) ==> b@ == g1_compressed(q.dlog() as nat),
            forall|k: nat|
                k < modulus() && b@ == #[trigger] g1_compressed(k) ==> (r matches Some(q) && q.dlog()
                    == k),
    {
        match g1_deserialize_compressed(b) {
            Some(v) => {
                let ghost kc = choose|k: nat|
                    k < modulus() && b@ == #[trigger] g1_compressed(k) && v@ == g1_point(k) && (
                    forall|k2: nat| k2 < modulus() && b@ == #[trigger] g1_compressed(k2) ==> k2 == k);
                let q = G1 { bytes: v, k: Ghost(kc) };
                proof {
                    lemma_md_small(kc as int);
                }
                Some(q)
            },
            None => None,
        }
    }

    /// The multi-scalar product `Σ scalars[i] · bases[i]`.
    pub fn msm(bases: &Vec<G1>, scalars: &Vec<Scalar>) -> (r: G1)
        requires
            bases.len() == scalars.len(),
        ensures
            r.dlog() == md(msm_sum(bases@, scalars@, bases.len() as int)),
    {
        G1 {
            bytes: g1_msm(bases, scalars),
            k: Ghost(md(msm_sum(bases@, scalars@, bases.len() as int)) as nat),
        }
    }
}

impl Gt {
    /// `s · e(g1, g2)`.
    pub fn mul_generator(s: &Scalar) -> (r: Gt)
        ensures
            r.dlog() == s@,
    {
        proof {
            use_type_invariant(s);
        }
        Gt { bytes: gt_generator_mul(s), k: Ghost(s@) }
    }

    /// The generator `e(g1, g2)`.
    pub fn generator() -> (r: Gt)
        ensures
            r.dlog() == 1,
    {
        Gt::mul_generator(&Scalar::one())
    }

    /// A random element: the generator times a scalar that `rng` draws.
    /// Which element comes back rests on the generator's state, so the
    /// contract states only what holds of every outcome.
    pub fn random(rng: &mut ark_std::rand::rngs::StdRng) -> (r: Gt)
        ensures
            r.dlog() < modulus(),
    {
        Gt::mul_generator(&Scalar::random(rng))
    }

    /// The pairing `e(a, b)`.
    pub fn pairing(a: &G1, b: &G2) -> (r: Gt)
        ensures
            r.dlog() == md(a.dlog() * b.dlog() as int),
    {
        proof {
            use_type_invariant(a);
            use_type_invariant(b);
            lemma_md_small(a.k@ as int);
            lemma_md_small(b.k@ as int);
            lemma_md_small(a.k@ * b.k@ as int);
        }
        Gt { bytes: gt_pairing(a, b), k: Ghost(md(a.k@ * b.k@ as int) as nat) }
    }

    /// The sum of the pairings `e(a[i], b[i])`.
    pub fn multi_pairing(a: &Vec<G1>, b: &Vec<G2>) -> (r: Gt)
        requires
            a.len() == b.len(),
        ensures
            r.dlog() == md(pairing_sum(a@, b@, a.len() as int)),
    {
        Gt {
            bytes: gt_multi_pairing(a, b),
            k: Ghost(md(pairing_sum(a@, b@, a.len() as int)) as nat),
        }
    }

    /// The uncompressed encoding of the element.
    pub fn to_bytes(&self) -> (r: Vec<u8>)
        ensures
            r@ == gt_point(self.dlog() as nat),
    {
        proof {
            use_type_invariant(self);
        }
        self.bytes.clone()
    }

    /// The compressed encoding of the element.
    pub fn to_compressed_bytes(&self) -> (r: Vec<u8>)
        ensures
            r@ == gt_compressed(self.dlog() as nat),
    {
        proof {
            use_type_invariant(self);
            lemma_md_small(self.k@ as int);
        }
        gt_serialize_compressed(self)
    }
}

impl GroupElem for Gt {
    closed spec fn dlog(&self) -> int {
        (self.k@ % modulus()) as int
    }

    fn identity() -> (r: Self) {
        proof {
            lemma_md_small(0);
        }
        Gt::mul_generator(&Scalar::zero())
    }

    fn plus(&self, other: &Self) -> (r: Self) {
        proof {
            use_type_invariant(self);
            use_type_invariant(other);
            lemma_md_small(self.k@ as int);
            lemma_md_small(other.k@ as int);
            lemma_md_small(self.k@ + other.k@ as int);
            lemma_md_small(self.k@ - other.k@);
        }
        Gt { bytes: gt_add(self, other), k: Ghost(md(self.k@ + other.k@ as int) as nat) }
    }

    fn minus(&self, other: &Self) -> (r: Self) {
        proof {
            use_type_invariant(self);
            use_type_invariant(other);
            lemma_md_small(self.k@ as int);
            lemma_md_small(other.k@ as int);
            lemma_md_small(self.k@ + other.k@ as int);
            lemma_md_small(self.k@ - other.k@);
        }
        Gt { bytes: gt_sub(self, other), k: Ghost(md(self.k@ - other.k@) as nat) }
    }

    fn times(&self, s: &Scalar) -> (r: Self) {
        proof {
            use_type_invariant(self);
            lemma_md_small(self.k@ as int);
            lemma_md_small(self.k@ * s@ as int);
        }
        Gt { bytes: gt_mul(self, s), k: Ghost(md(self.k@ * s@ as int) as nat) }
    }

    fn duplicate(&self) -> (r: Self) {
        proof {
            use_type_invariant(self);
        }
        Gt { bytes: self.bytes.clone(), k: Ghost(self.k@) }
    }

    fn equals(&self, other: &Self) -> (r: bool) {
        proof {
            use_type_invariant(self);
            use_type_invariant(other);
            lemma_md_small(self.k@ as int);
            lemma_md_small(other.k@ as int);
        }
        gt_eq(self, other)
    }

    proof fn lemma_dlog_bound(&self) {
        lemma_md_small(self.k@ as int);
    }
}

} // verus!
