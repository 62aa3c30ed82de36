//! Construction 4: a simulation-extractable NIZK, Fiat-Shamir transformed
//! from a Schnorr-style sigma protocol, for the ciphertext relation
//! `R_x0 = {((x1, x2), w) : x1 = [w]_1, x2 = w · x0}`.

use vstd::prelude::*;
use crate::field::{Scalar, is_drawn, modulus, md, le_value, lemma_md_add, lemma_md_mul, lemma_md_small, invertible,
    lemma_cong_iff_diff, lemma_zero_factor, lemma_unit_cancel, lemma_cong_add, lemma_cong_mul};
use crate::group::{G1, GroupElem, g1_compressed, msm_sum};
use crate::hashing::{sha512, sha512_digest, bytes_of};

verus! {

/// The random oracle `H(x0, x1, x2, x1', x2') -> Fr` used for the
/// Fiat-Shamir challenge of the NIZK.
pub trait TranscriptOracle {
    /// The challenge for the given points, named by their discrete logarithms.
    spec fn spec_challenge(x0: int, x1: int, x2: int, x1_prime: int, x2_prime: int) -> int;

    fn challenge(x0: &G1, x1: &G1, x2: &G1, x1_prime: &G1, x2_prime: &G1) -> (c: Scalar)
        ensures
            c@ == Self::spec_challenge(
                x0.dlog(),
                x1.dlog(),
                x2.dlog(),
                x1_prime.dlog(),
                x2_prime.dlog(),
            ),
    ;
}

/// Domain separation tag for the NIZK Fiat-Shamir challenge.
pub const NIZK_DOMAIN_SEP: [u8; 34] = [66, 97, 116, 99, 104, 69, 110, 99, 114, 121, 112, 116, 105, 111, 110, 45, 78, 73, 90, 75, 45, 67, 111, 110, 115, 116, 114, 117, 99, 116, 105, 111, 110, 52];

/// The oracle that hashes the domain tag and the compressed points with
/// SHA-512 and reduces the digest, read little-endian, modulo r.
pub struct Sha512Oracle;

pub type Sha256Oracle = Sha512Oracle;

/// The bytes that `Sha512Oracle` hashes.
pub open spec fn transcript(x0: nat, x1: nat, x2: nat, x1_prime: nat, x2_prime: nat) -> Seq<u8> {
    NIZK_DOMAIN_SEP@ + g1_compressed(x0) + g1_compressed(x1) + g1_compressed(x2) + g1_compressed(
        x1_prime,
    ) + g1_compressed(x2_prime)
}

impl TranscriptOracle for Sha512Oracle {
    open spec fn spec_challenge(x0: int, x1: int, x2: int, x1_prime: int, x2_prime: int) -> int {
        md(
            le_value(
                sha512(transcript(x0 as nat, x1 as nat, x2 as nat, x1_prime as nat, x2_prime as nat)),
            ) as int,
        )
    }

    fn challenge(x0: &G1, x1: &G1, x2: &G1, x1_prime: &G1, x2_prime: &G1) -> (c: Scalar) {
        let mut buf = bytes_of(&NIZK_DOMAIN_SEP);
        let mut b0 = x0.to_compressed_bytes();
        buf.append(&mut b0);
        let mut b1 = x1.to_compressed_bytes();
        buf.append(&mut b1);
        let mut b2 = x2.to_compressed_bytes();
        buf.append(&mut b2);
        let mut b3 = x1_prime.to_compressed_bytes();
        buf.append(&mut b3);
        let mut b4 = x2_prime.to_compressed_bytes();
        buf.append(&mut b4);
        let hash_output = sha512_digest(&buf);
        let c = Scalar::from_le_bytes_mod_order(hash_output.as_slice());
        proof {
            lemma_md_small(le_value(hash_output@) as int);
        }
        c
    }
}

/// The public parameter of the NIZK: the group element `x0 = ek[1]` in G1.
pub struct NizkParams {
    pub x0: G1,
}

impl View for NizkParams {
    type V = int;

    /// The discrete logarithm of `x0`.
    open spec fn view(&self) -> int {
        self.x0.dlog()
    }
}

/// A statement `x = (x1, x2)` in G1², the pair `(ct[1], ct[2])` of a
/// ciphertext.
pub struct Statement {
    pub x1: G1,
    pub x2: G1,
}

impl View for Statement {
    type V = (int, int);

    /// The discrete logarithms of `(x1, x2)`.
    open spec fn view(&self) -> (int, int) {
        (self.x1.dlog(), self.x2.dlog())
    }
}

/// A proof `π = (ŵ, x1', x2')` in Fr × G1 × G1.
pub struct Proof {
    pub w_hat: Scalar,
    pub x1_prime: G1,
    pub x2_prime: G1,
}

impl View for Proof {
    type V = (int, int, int);

    /// `ŵ` and the discrete logarithms of `x1'` and `x2'`.
    open spec fn view(&self) -> (int, int, int) {
        (self.w_hat@ as int, self.x1_prime.dlog(), self.x2_prime.dlog())
    }
}

impl Statement {
    /// A copy of the statement.
    pub fn duplicate(&self) -> (r: Statement)
        ensures
            r@ == self@,
    {
        Statement { x1: self.x1.duplicate(), x2: self.x2.duplicate() }
    }
}

impl Proof {
    /// A copy of the proof.
    pub fn duplicate(&self) -> (r: Proof)
        ensures
            r@ == self@,
    {
        Proof {
            w_hat: self.w_hat.duplicate(),
            x1_prime: self.x1_prime.duplicate(),
            x2_prime: self.x2_prime.duplicate(),
        }
    }
}

impl Proof {
    /// The compressed encoding of the proof, its fields in order: the 32
    /// little-endian bytes of `ŵ`, then the 48-byte compressed encodings of
    /// `x1'` and of `x2'`.
    pub fn to_compressed_bytes(&self) -> (b: Vec<u8>)
        ensures
            b@.len() == 128,
            le_value(b@.take(32)) == self.w_hat@,
            b@.subrange(32, 80) == g1_compressed(self.x1_prime.dlog() as nat),
            b@.subrange(80, 128) == g1_compressed(self.x2_prime.dlog() as nat),
            self.w_hat@ < modulus(),
            0 <= self.x1_prime.dlog() < modulus(),
            0 <= self.x2_prime.dlog() < modulus(),
    {
        proof {
            use_type_invariant(&self.w_hat);
            self.x1_prime.lemma_dlog_bound();
            self.x2_prime.lemma_dlog_bound();
        }
        let mut b = self.w_hat.to_compressed_bytes();
        let mut x1 = self.x1_prime.to_compressed_bytes();
        let mut x2 = self.x2_prime.to_compressed_bytes();
        let ghost w = b@;
        let ghost x1b = x1@;
        let ghost x2b = x2@;
        b.append(&mut x1);
        b.append(&mut x2);
        proof {
            assert(b@.take(32) =~= w);
            assert(b@.subrange(32, 80) =~= x1b);
            assert(b@.subrange(80, 128) =~= x2b);
        }
        b
    }

    /// Reads a proof back from its compressed encoding, as the derived
    /// deserializer does: `ŵ` from the first 32 bytes, `x1'` and `x2'` from
    /// the next two groups of 48, any further bytes left unread. `None` when
    /// there are fewer than 128 bytes, when `ŵ` is not below r, or when
    /// either point's bytes encode no element of G1. An encoding of
    /// `(ŵ, x1', x2')` reads back as exactly that proof.
    pub fn from_compressed_bytes(b: &[u8]) -> (r: Option<Proof>)
        ensures
            r is Some <==> (b@.len() >= 128 && le_value(b@.take(32)) < modulus() && (exists|k: nat|
                k < modulus() && b@.subrange(32, 80) == #[trigger] g1_compressed(k)) && (exists|k: nat|
                k < modulus() && b@.subrange(80, 128) == #[trigger] g1_compressed(k))),
            r matches Some(p) ==> p.w_hat@ == le_value(b@.take(32)) && b@.subrange(32, 80)
                == g1_compressed(p.x1_prime.dlog() as nat) && b@.subrange(80, 128) == g1_compressed(
                p.x2_prime.dlog() as nat,
            ),
            forall|k1: nat, k2: nat|
                b@.len() >= 128 && le_value(b@.take(32)) < modulus() && k1 < modulus() && k2 < modulus()
                    && b@.subrange(32, 80) == #[trigger] g1_compressed(k1) && b@.subrange(80, 128)
                    == #[trigger] g1_compressed(k2) ==> (r matches Some(p) && p@ == (
                    le_value(b@.take(32)) as int,
                    k1 as int,
                    k2 as int,
                )),
    {
        if b.len() < 128 {
            return None;
        }
        let wb = vstd::slice::slice_subrange(b, 0, 32);
        let x1b = vstd::slice::slice_subrange(b, 32, 80);
        let x2b = vstd::slice::slice_subrange(b, 80, 128);
        proof {
            assert(wb@ =~= b@.take(32));
        }
        let w_hat = match Scalar::from_compressed_bytes(wb) {
            Some(w) => w,
            None => {
                return None;
            },
        };
        let x1_prime = match G1::from_compressed_bytes(x1b) {
            Some(x) => x,
            None => {
                return None;
            },
        };
        let x2_prime = match G1::from_compressed_bytes(x2b) {
            Some(x) => x,
            None => {
                return None;
            },
        };
        Some(Proof { w_hat, x1_prime, x2_prime })
    }
}

/// The views of a sequence of statements.
pub open spec fn statement_views(s: Seq<Statement>) -> Seq<(int, int)> {
    s.map_values(|x: Statement| x@)
}

/// The views of a sequence of proofs.
pub open spec fn proof_views(s: Seq<Proof>) -> Seq<(int, int, int)> {
    s.map_values(|x: Proof| x@)
}

/// The values of a sequence of field elements.
pub open spec fn scalar_values(s: Seq<Scalar>) -> Seq<int> {
    s.map_values(|x: Scalar| x@ as int)
}

/// The challenge of a proof `p` for a statement `s` under parameter `x0`.
pub open spec fn challenge_of<H: TranscriptOracle>(x0: int, s: (int, int), p: (int, int, int)) -> int {
    H::spec_challenge(x0, s.0, s.1, p.1, p.2)
}

/// The verifier's two checks: `x1' + c·x1 = [ŵ]_1` and `x2' + c·x2 = ŵ·x0`.
pub open spec fn accepts<H: TranscriptOracle>(x0: int, s: (int, int), p: (int, int, int)) -> bool {
    let c = challenge_of::<H>(x0, s, p);
    &&& md(p.1 + c * s.0) == md(p.0)
    &&& md(p.2 + c * s.1) == md(p.0 * x0)
}

/// What the prover outputs for witness `w`, with `w' = dlog(x1')` its
/// random nonce: `x2' = w'·x0` and `ŵ = w' + c·w`.
pub open spec fn honest_proof<H: TranscriptOracle>(
    x0: int,
    s: (int, int),
    w: int,
    p: (int, int, int),
) -> bool {
    &&& p.2 == md(p.1 * x0)
    &&& p.0 == md(p.1 + challenge_of::<H>(x0, s, p) * w)
}

/// Proves knowledge of `w` with `x1 = [w]_1` and `x2 = w·x0`: samples `w'`,
/// sets `x1' = [w']_1`, `x2' = w'·x0`, `c = H(x0, x1, x2, x1', x2')` and
/// `ŵ = w' + c·w`.
pub fn prove<H: TranscriptOracle>(
    params: &NizkParams,
    statement: &Statement,
    witness: &Scalar,
    rng: &mut ark_std::rand::rngs::StdRng,
) -> (p: Proof)
    ensures
        honest_proof::<H>(params@, statement@, witness@ as int, p@),
        p.x1_prime.dlog() < modulus(),
{
    let w_prime = Scalar::random(rng);
    let x1_prime = G1::generator().times(&w_prime);
    let x2_prime = params.x0.times(&w_prime);
    let c = H::challenge(&params.x0, &statement.x1, &statement.x2, &x1_prime, &x2_prime);
    let w_hat = w_prime.add(&c.mul(witness));
    let p = Proof { w_hat, x1_prime, x2_prime };
    proof {
        lemma_md_small(w_prime@ as int);
        assert(w_prime@ * params.x0.dlog() == params.x0.dlog() * w_prime@) by (nonlinear_arith);
        lemma_md_add(w_prime@ as int, c@ * witness@ as int);
        lemma_md_small(c@ * witness@ as int);
    }
    p
}

/// Verifies a proof: with `c = H(x0, x1, x2, x1', x2')`, checks
/// `x1' + c·x1 == [ŵ]_1` and `x2' + c·x2 == ŵ·x0`.
#[verifier::spinoff_prover]
#[verifier::rlimit(30)]
pub fn verify<H: TranscriptOracle>(params: &NizkParams, statement: &Statement, proof: &Proof) -> (r:
    bool)
    ensures
        r == accepts::<H>(params@, statement@, proof@),
{
    let c = H::challenge(
        &params.x0,
        &statement.x1,
        &statement.x2,
        &proof.x1_prime,
        &proof.x2_prime,
    );
    proof {
        lemma_md_add(proof.x1_prime.dlog() as int, statement.x1.dlog() * c@);
        lemma_md_small(statement.x1.dlog() * c@);
        lemma_md_small(proof.x1_prime.dlog() as int);
        lemma_md_add(proof.x2_prime.dlog() as int, statement.x2.dlog() * c@);
        lemma_md_small(statement.x2.dlog() * c@);
        lemma_md_small(proof.x2_prime.dlog() as int);
        assert(statement.x1.dlog() * c@ == c@ * statement.x1.dlog()) by (nonlinear_arith);
        assert(statement.x2.dlog() * c@ == c@ * statement.x2.dlog()) by (nonlinear_arith);
        assert(1 * proof.w_hat@ == proof.w_hat@);
    }
    let lhs1 = proof.x1_prime.plus(&statement.x1.times(&c));
    let rhs1 = G1::generator().times(&proof.w_hat);
    if !lhs1.equals(&rhs1) {
        return false;
    }
    let lhs2 = proof.x2_prime.plus(&statement.x2.times(&c));
    let rhs2 = params.x0.times(&proof.w_hat);
    proof {
        assert(params.x0.dlog() * proof.w_hat@ == proof.w_hat@ * params.x0.dlog())
            by (nonlinear_arith);
    }
    if !lhs2.equals(&rhs2) {
        return false;
    }
    true
}

/// `Σ_{j<n} γ_j · (x1'_j + c_j · x1_j)`.
pub open spec fn batch_sum1<H: TranscriptOracle>(
    x0: int,
    st: Seq<(int, int)>,
    pf: Seq<(int, int, int)>,
    gs: Seq<int>,
    n: int,
) -> int
    decreases n,
{
    if n <= 0 {
        0
    } else {
        let j = n - 1;
        batch_sum1::<H>(x0, st, pf, gs, j) + gs[j] * (pf[j].1 + challenge_of::<H>(x0, st[j], pf[j])
            * st[j].0)
    }
}

/// `Σ_{j<n} γ_j · (x2'_j + c_j · x2_j)`.
pub open spec fn batch_sum2<H: TranscriptOracle>(
    x0: int,
    st: Seq<(int, int)>,
    pf: Seq<(int, int, int)>,
    gs: Seq<int>,
    n: int,
) -> int
    decreases n,
{
    if n <= 0 {
        0
    } else {
        let j = n - 1;
        batch_sum2::<H>(x0, st, pf, gs, j) + gs[j] * (pf[j].2 + challenge_of::<H>(x0, st[j], pf[j])
            * st[j].1)
    }
}

/// `Σ_{j<n} γ_j · ŵ_j`.
pub open spec fn batch_sum_w(pf: Seq<(int, int, int)>, gs: Seq<int>, n: int) -> int
    decreases n,
{
    if n <= 0 {
        0
    } else {
        batch_sum_w(pf, gs, n - 1) + gs[n - 1] * pf[n - 1].0
    }
}

/// The two batched checks with weights `γ_j`:
/// `Σ γ_j x1'_j + Σ γ_j c_j x1_j = (Σ γ_j ŵ_j)·[1]_1` and
/// `Σ γ_j x2'_j + Σ γ_j c_j x2_j = (Σ γ_j ŵ_j)·x0`.
pub open spec fn batch_accepts<H: TranscriptOracle>(
    x0: int,
    st: Seq<(int, int)>,
    pf: Seq<(int, int, int)>,
    gs: Seq<int>,
) -> bool {
    let n = st.len() as int;
    n == 0 || {
        &&& md(batch_sum1::<H>(x0, st, pf, gs, n)) == md(batch_sum_w(pf, gs, n))
        &&& md(batch_sum2::<H>(x0, st, pf, gs, n)) == md(x0 * batch_sum_w(pf, gs, n))
    }
}

/// Every proof of the batch is accepted on its own.
pub open spec fn all_accept<H: TranscriptOracle>(
    x0: int,
    st: Seq<(int, int)>,
    pf: Seq<(int, int, int)>,
) -> bool {
    forall|j: int| 0 <= j < st.len() ==> #[trigger] accepts::<H>(x0, st[j], pf[j])
}

/// One more term of an MSM pair reduces like one more term of the batched sum.
proof fn lemma_msm_step(t1: int, t2: int, l: int, x1p: int, g: int, x1: int, gc: int, c: int)
    requires
        md(t1 + t2) == md(l),
        gc == md(g * c),
    ensures
        md((t1 + x1p * g) + (t2 + x1 * gc)) == md(l + g * (x1p + c * x1)),
{
    lemma_md_mul(x1, gc);
    lemma_md_mul(x1, g * c);
    lemma_md_small(g * c);
    assert(md(x1 * gc) == md(x1 * (g * c)));
    lemma_md_add(t1 + t2, x1p * g + x1 * gc);
    lemma_md_add(l, x1p * g + x1 * (g * c));
    lemma_md_add(x1p * g, x1 * gc);
    lemma_md_add(x1p * g, x1 * (g * c));
    assert(g * (x1p + c * x1) == x1p * g + x1 * (g * c)) by (nonlinear_arith);
    assert((t1 + x1p * g) + (t2 + x1 * gc) == (t1 + t2) + (x1p * g + x1 * gc));
}

/// MSM sums agree on sequences that agree on the summed prefix.
proof fn lemma_msm_sum_agree(b0: Seq<G1>, b1: Seq<G1>, s0: Seq<Scalar>, s1: Seq<Scalar>, j: int)
    requires
        0 <= j <= b0.len(),
        j <= b1.len(),
        j <= s0.len(),
        j <= s1.len(),
        forall|i: int| 0 <= i < j ==> b0[i] == b1[i] && s0[i] == s1[i],
    ensures
        msm_sum(b1, s1, j) == msm_sum(b0, s0, j),
    decreases j,
{
    if j > 0 {
        lemma_msm_sum_agree(b0, b1, s0, s1, j - 1);
    }
}

/// Batch-verifies proofs sharing `params` with the given weights `γ_j`, in
/// two MSM-based checks.
pub fn verify_batch_with_weights<H: TranscriptOracle>(
    params: &NizkParams,
    statements: &[Statement],
    proofs: &[Proof],
    gammas: &[Scalar],
) -> (r: bool)
    requires
        statements@.len() == proofs@.len(),
        gammas@.len() == statements@.len(),
    ensures
        r == batch_accepts::<H>(
            params@,
            statement_views(statements@),
            proof_views(proofs@),
            scalar_values(gammas@),
        ),
{
    let ell = statements.len();
    let ghost x0 = params@;
    let ghost st = statement_views(statements@);
    let ghost pf = proof_views(proofs@);
    let ghost gs = scalar_values(gammas@);
    if ell == 0 {
        return true;
    }
    let mut gamma_c: Vec<Scalar> = Vec::new();
    let mut gammas_v: Vec<Scalar> = Vec::new();
    let mut x1_primes: Vec<G1> = Vec::new();
    let mut x1_points: Vec<G1> = Vec::new();
    let mut x2_primes: Vec<G1> = Vec::new();
    let mut x2_points: Vec<G1> = Vec::new();
    let mut sum_gamma_w = Scalar::zero();
    let mut j: usize = 0;
    proof {
        lemma_md_small(0);
    }
    while j < ell
        invariant
            ell == statements@.len(),
            ell == proofs@.len(),
            ell == gammas@.len(),
            x0 == params@,
            st == statement_views(statements@),
            pf == proof_views(proofs@),
            gs == scalar_values(gammas@),
            0 <= j <= ell,
            gamma_c@.len() == j,
            gammas_v@.len() == j,
            x1_primes@.len() == j,
            x1_points@.len() == j,
            x2_primes@.len() == j,
            x2_points@.len() == j,
            sum_gamma_w@ == md(batch_sum_w(pf, gs, j as int)),
            md(msm_sum(x1_primes@, gammas_v@, j as int) + msm_sum(x1_points@, gamma_c@, j as int))
                == md(batch_sum1::<H>(x0, st, pf, gs, j as int)),
            md(msm_sum(x2_primes@, gammas_v@, j as int) + msm_sum(x2_points@, gamma_c@, j as int))
                == md(batch_sum2::<H>(x0, st, pf, gs, j as int)),
        decreases ell - j,
    {
        let s = &statements[j];
        let p = &proofs[j];
        let g = &gammas[j];
        let c = H::challenge(&params.x0, &s.x1, &s.x2, &p.x1_prime, &p.x2_prime);
        let gc = g.mul(&c);
        proof {
            use_type_invariant(g);
            assert(st[j as int] == s@);
            assert(pf[j as int] == p@);
            assert(gs[j as int] == g@);
            let cc = challenge_of::<H>(x0, s@, p@);
            lemma_msm_step(
                msm_sum(x1_primes@, gammas_v@, j as int),
                msm_sum(x1_points@, gamma_c@, j as int),
                batch_sum1::<H>(x0, st, pf, gs, j as int),
                p.x1_prime.dlog(),
                g@ as int,
                s.x1.dlog(),
                gc@ as int,
                cc,
            );
            lemma_msm_step(
                msm_sum(x2_primes@, gammas_v@, j as int),
                msm_sum(x2_points@, gamma_c@, j as int),
                batch_sum2::<H>(x0, st, pf, gs, j as int),
                p.x2_prime.dlog(),
                g@ as int,
                s.x2.dlog(),
                gc@ as int,
                cc,
            );
            lemma_md_add(batch_sum_w(pf, gs, j as int), g@ * p.w_hat@ as int);
            lemma_md_small(batch_sum_w(pf, gs, j as int));
            lemma_md_small(g@ * p.w_hat@ as int);
        }
        sum_gamma_w = sum_gamma_w.add(&g.mul(&p.w_hat));
        let ghost prev = (x1_primes@, x1_points@, x2_primes@, x2_points@, gammas_v@, gamma_c@);
        x1_primes.push(p.x1_prime.duplicate());
        x1_points.push(s.x1.duplicate());
        x2_primes.push(p.x2_prime.duplicate());
        x2_points.push(s.x2.duplicate());
        gammas_v.push(g.duplicate());
        gamma_c.push(gc);
        proof {
            lemma_msm_sum_agree(prev.0, x1_primes@, prev.4, gammas_v@, j as int);
            lemma_msm_sum_agree(prev.1, x1_points@, prev.5, gamma_c@, j as int);
            lemma_msm_sum_agree(prev.2, x2_primes@, prev.4, gammas_v@, j as int);
            lemma_msm_sum_agree(prev.3, x2_points@, prev.5, gamma_c@, j as int);
        }
        j += 1;
    }
    // Check 1: Σ γ_j·x'_1 + Σ γ_j·c_j·x_1 == (Σ γ_j·ŵ_j) · [1]_1
    let lhs1 = G1::msm(&x1_primes, &gammas_v).plus(&G1::msm(&x1_points, &gamma_c));
    let rhs1 = G1::generator().times(&sum_gamma_w);
    proof {
        let s1 = msm_sum(x1_primes@, gammas_v@, ell as int);
        let s2 = msm_sum(x1_points@, gamma_c@, ell as int);
        lemma_md_add(s1, s2);
        lemma_md_small(batch_sum_w(pf, gs, ell as int));
    }
    if !lhs1.equals(&rhs1) {
        return false;
    }
    // Check 2: Σ γ_j·x'_2 + Σ γ_j·c_j·x_2 == (Σ γ_j·ŵ_j) · x_0
    let lhs2 = G1::msm(&x2_primes, &gammas_v).plus(&G1::msm(&x2_points, &gamma_c));
    let rhs2 = params.x0.times(&sum_gamma_w);
    proof {
        let s1 = msm_sum(x2_primes@, gammas_v@, ell as int);
        let s2 = msm_sum(x2_points@, gamma_c@, ell as int);
        lemma_md_add(s1, s2);
        let w = batch_sum_w(pf, gs, ell as int);
        lemma_md_mul(params.x0.dlog(), w);
        lemma_md_mul(params.x0.dlog(), md(w));
        lemma_md_small(w);
        params.x0.lemma_dlog_bound();
        lemma_md_small(params.x0.dlog());
    }
    lhs2.equals(&rhs2)
}

/// Batch-verifies many proofs sharing `params`: draws random weights `γ_j`
/// and runs the two MSM-based checks. Accepts every batch of proofs that
/// are each accepted on their own, and the empty batch.
///
/// The result is the batched check of [`verify_batch_with_weights`] under
/// the weights drawn from `rng`. Those weights rest on the generator's
/// state, so the contract only says that some weights give the result; that
/// clause holds of every outcome (all-zero weights pass any batch) and does
/// not pin the result down. For an exact check, draw the weights and call
/// [`verify_batch_with_weights`]. An empty batch draws nothing.
pub fn verify_batch<H: TranscriptOracle>(
    params: &NizkParams,
    statements: &[Statement],
    proofs: &[Proof],
    rng: &mut ark_std::rand::rngs::StdRng,
) -> (r: bool)
    requires
        statements@.len() == proofs@.len(),
    ensures
        statements@.len() == 0 ==> r && *final(rng) == *old(rng),
        all_accept::<H>(params@, statement_views(statements@), proof_views(proofs@)) ==> r,
        exists|gs: Seq<int>|
            gs.len() == statements@.len() && r == batch_accepts::<H>(
                params@,
                statement_views(statements@),
                proof_views(proofs@),
                gs,
            ),
        statements@.len() > 0 ==> drawn_batch_decides::<H>(
            params@,
            statement_views(statements@),
            proof_views(proofs@),
            r,
        ),
{
    if statements.len() == 0 {
        proof {
            let e = Seq::<int>::empty();
            assert(batch_accepts::<H>(
                params@,
                statement_views(statements@),
                proof_views(proofs@),
                e,
            ));
        }
        return true;
    }
    let ell = statements.len();
    let mut gammas: Vec<Scalar> = Vec::new();
    let mut i: usize = 0;
    while i < ell
        invariant
            0 <= i <= ell,
            gammas@.len() == i,
            forall|j: int| 0 <= j < i ==> is_drawn(#[trigger] gammas@[j]),
        decreases ell - i,
    {
        let draw = Scalar::random;
        let g = draw(rng);
        gammas.push(g);
        i += 1;
    }
    let r = verify_batch_with_weights::<H>(params, statements, proofs, gammas.as_slice());
    proof {
        let x0 = params@;
        let st = statement_views(statements@);
        let pf = proof_views(proofs@);
        let gs = scalar_values(gammas@);
        if all_accept::<H>(x0, st, pf) {
            lemma_batch_complete::<H>(x0, st, pf, gs);
        }
        assert forall|i: int|
            0 <= i < gammas@.len() && one_failure::<H>(x0, st, pf, i) implies (r <==> (md(
                #[trigger] gammas@[i]@ * discrepancy1::<H>(x0, st[i], pf[i]),
            ) == 0 && md(gammas@[i]@ * discrepancy2::<H>(x0, st[i], pf[i])) == 0)) by {
            lemma_batch_one_failure::<H>(x0, st, pf, gs, i);
        }
        assert(drawn_batch_decides::<H>(x0, st, pf, r));
    }
    r
}

/// Batch verification is complete: whatever the weights, a batch of proofs
/// that are each accepted passes both batched checks.
pub proof fn lemma_batch_complete<H: TranscriptOracle>(
    x0: int,
    st: Seq<(int, int)>,
    pf: Seq<(int, int, int)>,
    gs: Seq<int>,
)
    requires
        st.len() == pf.len(),
        gs.len() == st.len(),
        all_accept::<H>(x0, st, pf),
    ensures
        batch_accepts::<H>(x0, st, pf, gs),
{
    lemma_batch_sums::<H>(x0, st, pf, gs, st.len() as int);
}

proof fn lemma_batch_sums<H: TranscriptOracle>(
    x0: int,
    st: Seq<(int, int)>,
    pf: Seq<(int, int, int)>,
    gs: Seq<int>,
    n: int,
)
    requires
        0 <= n <= st.len(),
        st.len() == pf.len(),
        gs.len() == st.len(),
        all_accept::<H>(x0, st, pf),
    ensures
        md(batch_sum1::<H>(x0, st, pf, gs, n)) == md(batch_sum_w(pf, gs, n)),
        md(batch_sum2::<H>(x0, st, pf, gs, n)) == md(x0 * batch_sum_w(pf, gs, n)),
    decreases n,
{
    if n > 0 {
        let j = n - 1;
        lemma_batch_sums::<H>(x0, st, pf, gs, j);
        assert(accepts::<H>(x0, st[j], pf[j]));
        let c = challenge_of::<H>(x0, st[j], pf[j]);
        let g = gs[j];
        let a1 = pf[j].1 + c * st[j].0;
        let a2 = pf[j].2 + c * st[j].1;
        let w = pf[j].0;
        let b1 = batch_sum1::<H>(x0, st, pf, gs, j);
        let b2 = batch_sum2::<H>(x0, st, pf, gs, j);
        let bw = batch_sum_w(pf, gs, j);
        lemma_md_mul(g, a1);
        lemma_md_mul(g, w);
        lemma_md_mul(g, a2);
        lemma_md_mul(g, w * x0);
        lemma_md_add(b1, g * a1);
        lemma_md_add(bw, g * w);
        lemma_md_add(b2, g * a2);
        lemma_md_add(x0 * bw, g * (w * x0));
        lemma_md_mul(x0, bw);
        lemma_md_mul(x0, bw + g * w);
        lemma_md_add(md(x0 * bw), md(g * (w * x0)));
        assert(x0 * (bw + g * w) == x0 * bw + g * (w * x0)) by (nonlinear_arith);
    }
}

/// How far a proof is from the verifier's first check: `x1' + c·x1 − ŵ`,
/// in the exponent.
pub open spec fn discrepancy1<H: TranscriptOracle>(x0: int, s: (int, int), p: (int, int, int)) -> int {
    p.1 + challenge_of::<H>(x0, s, p) * s.0 - p.0
}

/// How far a proof is from the verifier's second check: `x2' + c·x2 − ŵ·x0`,
/// in the exponent.
pub open spec fn discrepancy2<H: TranscriptOracle>(x0: int, s: (int, int), p: (int, int, int)) -> int {
    p.2 + challenge_of::<H>(x0, s, p) * s.1 - p.0 * x0
}

/// Some weights, each a value drawn by [`Scalar::random`], make the batched
/// checks come out as `ok`; so when every proof but the `i`-th is accepted,
/// `ok` holds exactly when that proof's drawn weight cancels both of its
/// discrepancies.
pub open spec fn drawn_batch_decides<H: TranscriptOracle>(
    x0: int,
    st: Seq<(int, int)>,
    pf: Seq<(int, int, int)>,
    ok: bool,
) -> bool {
    exists|gs: Seq<Scalar>|
        #![trigger scalar_values(gs)]
        gs.len() == st.len() && (forall|j: int| 0 <= j < gs.len() ==> is_drawn(#[trigger] gs[j]))
            && ok == batch_accepts::<H>(x0, st, pf, scalar_values(gs)) && (forall|i: int|
            0 <= i < gs.len() && one_failure::<H>(x0, st, pf, i) ==> (ok <==> (md(
                #[trigger] gs[i]@ * discrepancy1::<H>(x0, st[i], pf[i]),
            ) == 0 && md(gs[i]@ * discrepancy2::<H>(x0, st[i], pf[i])) == 0)))
}

/// Every proof of the batch but the `i`-th is accepted on its own.
pub open spec fn one_failure<H: TranscriptOracle>(
    x0: int,
    st: Seq<(int, int)>,
    pf: Seq<(int, int, int)>,
    i: int,
) -> bool {
    forall|j: int| 0 <= j < st.len() && j != i ==> #[trigger] accepts::<H>(x0, st[j], pf[j])
}

/// The batched sums differ by the weighted discrepancies of the one proof
/// that may fail.
proof fn lemma_batch_diff<H: TranscriptOracle>(
    x0: int,
    st: Seq<(int, int)>,
    pf: Seq<(int, int, int)>,
    gs: Seq<int>,
    i: int,
    n: int,
)
    requires
        0 <= n <= st.len(),
        st.len() == pf.len(),
        gs.len() == st.len(),
        0 <= i < st.len(),
        forall|j: int| 0 <= j < st.len() && j != i ==> #[trigger] accepts::<H>(x0, st[j], pf[j]),
    ensures
        md(batch_sum1::<H>(x0, st, pf, gs, n) - batch_sum_w(pf, gs, n)) == (if i < n {
            md(gs[i] * discrepancy1::<H>(x0, st[i], pf[i]))
        } else {
            0
        }),
        md(batch_sum2::<H>(x0, st, pf, gs, n) - x0 * batch_sum_w(pf, gs, n)) == (if i < n {
            md(gs[i] * discrepancy2::<H>(x0, st[i], pf[i]))
        } else {
            0
        }),
    decreases n,
{
    lemma_md_small(0);
    if n > 0 {
        let j = n - 1;
        lemma_batch_diff::<H>(x0, st, pf, gs, i, j);
        let g = gs[j];
        let c = challenge_of::<H>(x0, st[j], pf[j]);
        let a1 = pf[j].1 + c * st[j].0;
        let a2 = pf[j].2 + c * st[j].1;
        let w = pf[j].0;
        let bw0 = batch_sum_w(pf, gs, j);
        let d10 = batch_sum1::<H>(x0, st, pf, gs, j) - bw0;
        let d20 = batch_sum2::<H>(x0, st, pf, gs, j) - x0 * bw0;
        let e1 = discrepancy1::<H>(x0, st[j], pf[j]);
        let e2 = discrepancy2::<H>(x0, st[j], pf[j]);
        let t1 = g * e1;
        let t2 = g * e2;
        assert(g * a1 - g * w == t1) by (nonlinear_arith)
            requires
                t1 == g * e1,
                e1 == a1 - w,
        ;
        assert(g * a2 - x0 * (g * w) == t2) by (nonlinear_arith)
            requires
                t2 == g * e2,
                e2 == a2 - w * x0,
        ;
        assert(x0 * (bw0 + g * w) == x0 * bw0 + x0 * (g * w)) by (nonlinear_arith);
        assert(batch_sum1::<H>(x0, st, pf, gs, n) - batch_sum_w(pf, gs, n) == d10 + t1);
        assert(batch_sum2::<H>(x0, st, pf, gs, n) - x0 * batch_sum_w(pf, gs, n) == d20 + t2);
        lemma_md_add(d10, t1);
        lemma_md_add(d20, t2);
        lemma_md_small(d10);
        lemma_md_small(d20);
        lemma_md_small(t1);
        lemma_md_small(t2);
        if j != i {
            assert(accepts::<H>(x0, st[j], pf[j]));
            lemma_cong_iff_diff(a1, w);
            lemma_cong_iff_diff(a2, w * x0);
            lemma_zero_factor(e1, g);
            lemma_zero_factor(e2, g);
            assert(e1 * g == g * e1) by (nonlinear_arith);
            assert(e2 * g == g * e2) by (nonlinear_arith);
        }
    }
}

/// Batch verification with one faulty proof: when every proof but the
/// `i`-th is accepted on its own, the batched checks with weights `γ` pass
/// exactly when `γ_i` times each of the `i`-th proof's two discrepancies is
/// a multiple of r. So a zero weight lets the faulty proof through, and a
/// weight with an inverse modulo r catches it.
pub proof fn lemma_batch_one_failure<H: TranscriptOracle>(
    x0: int,
    st: Seq<(int, int)>,
    pf: Seq<(int, int, int)>,
    gs: Seq<int>,
    i: int,
)
    requires
        st.len() == pf.len(),
        gs.len() == st.len(),
        0 <= i < st.len(),
        forall|j: int| 0 <= j < st.len() && j != i ==> #[trigger] accepts::<H>(x0, st[j], pf[j]),
    ensures
        batch_accepts::<H>(x0, st, pf, gs) <==> (md(gs[i] * discrepancy1::<H>(x0, st[i], pf[i])) == 0
            && md(gs[i] * discrepancy2::<H>(x0, st[i], pf[i])) == 0),
        md(gs[i]) == 0 ==> batch_accepts::<H>(x0, st, pf, gs),
        invertible(gs[i]) && !accepts::<H>(x0, st[i], pf[i]) ==> !batch_accepts::<H>(x0, st, pf, gs),
{
    let n = st.len() as int;
    let d1 = discrepancy1::<H>(x0, st[i], pf[i]);
    let d2 = discrepancy2::<H>(x0, st[i], pf[i]);
    let c = challenge_of::<H>(x0, st[i], pf[i]);
    lemma_batch_diff::<H>(x0, st, pf, gs, i, n);
    lemma_cong_iff_diff(batch_sum1::<H>(x0, st, pf, gs, n), batch_sum_w(pf, gs, n));
    lemma_cong_iff_diff(batch_sum2::<H>(x0, st, pf, gs, n), x0 * batch_sum_w(pf, gs, n));
    if md(gs[i]) == 0 {
        lemma_zero_factor(gs[i], d1);
        lemma_zero_factor(gs[i], d2);
    }
    if invertible(gs[i]) && md(gs[i] * d1) == 0 && md(gs[i] * d2) == 0 {
        lemma_unit_cancel(gs[i], d1);
        lemma_unit_cancel(gs[i], d2);
        lemma_cong_iff_diff(pf[i].1 + c * st[i].0, pf[i].0);
        lemma_cong_iff_diff(pf[i].2 + c * st[i].1, pf[i].0 * x0);
    }
}

/// A batch whose result is decided by drawn weights and that holds exactly
/// one proof that is not accepted on its own is accepted only if the weight
/// drawn for that proof has no inverse modulo r.
pub proof fn lemma_drawn_batch_one_bad<H: TranscriptOracle>(
    x0: int,
    st: Seq<(int, int)>,
    pf: Seq<(int, int, int)>,
    ok: bool,
    i: int,
)
    requires
        drawn_batch_decides::<H>(x0, st, pf, ok),
        st.len() == pf.len(),
        0 <= i < st.len(),
        one_failure::<H>(x0, st, pf, i),
        !accepts::<H>(x0, st[i], pf[i]),
    ensures
        ok ==> exists|g: Scalar| is_drawn(g) && !invertible(g@ as int),
{
    let gs = choose|gs: Seq<Scalar>|
        #![trigger scalar_values(gs)]
        gs.len() == st.len() && (forall|j: int| 0 <= j < gs.len() ==> is_drawn(#[trigger] gs[j]))
            && ok == batch_accepts::<H>(x0, st, pf, scalar_values(gs)) && (forall|k: int|
            0 <= k < gs.len() && one_failure::<H>(x0, st, pf, k) ==> (ok <==> (md(
                #[trigger] gs[k]@ * discrepancy1::<H>(x0, st[k], pf[k]),
            ) == 0 && md(gs[k]@ * discrepancy2::<H>(x0, st[k], pf[k])) == 0)));
    if ok {
        let g = gs[i];
        let c = challenge_of::<H>(x0, st[i], pf[i]);
        assert(is_drawn(g));
        assert(md(g@ * discrepancy1::<H>(x0, st[i], pf[i])) == 0);
        if invertible(g@ as int) {
            lemma_unit_cancel(g@ as int, discrepancy1::<H>(x0, st[i], pf[i]));
            lemma_unit_cancel(g@ as int, discrepancy2::<H>(x0, st[i], pf[i]));
            lemma_cong_iff_diff(pf[i].1 + c * st[i].0, pf[i].0);
            lemma_cong_iff_diff(pf[i].2 + c * st[i].1, pf[i].0 * x0);
        }
    }
}

/// A proof made honestly with a witness `w2` for a true statement
/// (`x1 = [w]_1`, `x2 = w·x0`) is accepted exactly when `c·(w − w2)` is a
/// multiple of r, `c` its challenge: with `c = 0` any witness passes, and
/// with an invertible `c` a witness that differs from `w` modulo r is
/// rejected.
pub proof fn lemma_wrong_witness<H: TranscriptOracle>(
    x0: int,
    s: (int, int),
    w: int,
    w2: int,
    p: (int, int, int),
)
    requires
        0 <= x0 < modulus(),
        s.0 == md(w),
        s.1 == md(w * x0),
        honest_proof::<H>(x0, s, w2, p),
    ensures
        accepts::<H>(x0, s, p) <==> md(challenge_of::<H>(x0, s, p) * (w - w2)) == 0,
        md(challenge_of::<H>(x0, s, p)) == 0 ==> accepts::<H>(x0, s, p),
        invertible(challenge_of::<H>(x0, s, p)) && md(w - w2) != 0 ==> !accepts::<H>(x0, s, p),
{
    let c = challenge_of::<H>(x0, s, p);
    let a = p.1 + c * w;
    let b = p.1 + c * w2;
    let e = c * (w - w2);
    lemma_md_small(w);
    lemma_md_small(w * x0);
    lemma_md_small(c);
    lemma_md_small(p.1);
    lemma_md_small(x0);
    lemma_md_small(b);
    lemma_md_small(p.1 * x0);
    // the first check compares a with b
    lemma_cong_mul(c, w, c, s.0);
    lemma_cong_add(p.1, c * w, p.1, c * s.0);
    assert(a - b == e) by (nonlinear_arith)
        requires
            a == p.1 + c * w,
            b == p.1 + c * w2,
            e == c * (w - w2),
    ;
    lemma_cong_iff_diff(a, b);
    // the second compares a·x0 with b·x0
    lemma_cong_mul(c, w * x0, c, s.1);
    lemma_cong_add(p.1 * x0, c * (w * x0), p.2, c * s.1);
    assert(p.1 * x0 + c * (w * x0) == a * x0) by (nonlinear_arith)
        requires
            a == p.1 + c * w,
    ;
    lemma_cong_mul(b, x0, p.0, x0);
    assert(a * x0 - b * x0 == e * x0) by (nonlinear_arith)
        requires
            a - b == e,
    ;
    lemma_cong_iff_diff(a * x0, b * x0);
    if md(e) == 0 {
        lemma_zero_factor(e, x0);
    }
    if md(c) == 0 {
        lemma_zero_factor(c, w - w2);
    }
    if invertible(c) && md(e) == 0 {
        lemma_unit_cancel(c, w - w2);
    }
}

/// Completeness: an honest proof for a true statement (`x1 = [w]_1`,
/// `x2 = w·x0`) is accepted.
pub proof fn lemma_honest_accepts<H: TranscriptOracle>(
    x0: int,
    s: (int, int),
    w: int,
    p: (int, int, int),
)
    requires
        0 <= x0 < modulus(),
        s.0 == md(w),
        s.1 == md(w * x0),
        honest_proof::<H>(x0, s, w, p),
    ensures
        accepts::<H>(x0, s, p),
{
    let c = challenge_of::<H>(x0, s, p);
    let wp = p.1;
    lemma_md_mul(c, s.0);
    lemma_md_mul(c, w);
    lemma_md_small(w);
    lemma_md_add(wp, c * s.0);
    lemma_md_add(wp, c * w);
    lemma_md_small(p.0);
    lemma_md_mul(c, s.1);
    lemma_md_mul(c, w * x0);
    lemma_md_small(w * x0);
    lemma_md_add(p.2, c * s.1);
    lemma_md_add(wp * x0, c * (w * x0));
    lemma_md_small(wp * x0);
    lemma_md_mul(p.0, x0);
    lemma_md_mul(wp + c * w, x0);
    assert((wp + c * w) * x0 == wp * x0 + c * (w * x0)) by (nonlinear_arith);
    lemma_md_small(x0);
}

} // verus!
