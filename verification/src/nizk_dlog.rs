//! Construction 6: a simulation-extractable Schnorr NIZK, Fiat-Shamir
//! transformed, for the discrete-logarithm relation
//! `R^DLOG = {(h, w) : h = [w]_1}`.

use vstd::prelude::*;
use crate::field::{Scalar, is_drawn, modulus, md, le_value, lemma_md_add, lemma_md_mul, lemma_md_small, invertible,
    lemma_cong_iff_diff, lemma_zero_factor, lemma_unit_cancel, lemma_cong_add, lemma_cong_mul};
use crate::group::{G1, GroupElem, g1_compressed, msm_sum};
use crate::hashing::{sha512, sha512_digest, bytes_of};

verus! {

/// The random oracle `H(h, x') -> Fr` of the Fiat-Shamir challenge.
pub trait TranscriptOracle {
    /// The challenge for the given points, named by their discrete logarithms.
    spec fn spec_challenge(h: int, x_prime: int) -> int;

    fn challenge(h: &G1, x_prime: &G1) -> (c: Scalar)
        ensures
            c@ == Self::spec_challenge(h.dlog(), x_prime.dlog()),
    ;
}

/// Domain separation tag for the Construction-6 Fiat-Shamir challenge.
pub const NIZK_DOMAIN_SEP: [u8; 39] = [66, 97, 116, 99, 104, 69, 110, 99, 114, 121, 112, 116, 105, 111, 110, 45, 78, 73, 90, 75, 45, 67, 111, 110, 115, 116, 114, 117, 99, 116, 105, 111, 110, 54, 45, 68, 76, 79, 71];

/// The oracle that hashes the domain tag and the compressed points with
/// SHA-512 and reduces the digest, read little-endian, modulo r.
pub struct Sha512Oracle;

/// The bytes that `Sha512Oracle` hashes.
pub open spec fn transcript(h: nat, x_prime: nat) -> Seq<u8> {
    NIZK_DOMAIN_SEP@ + g1_compressed(h) + g1_compressed(x_prime)
}

impl TranscriptOracle for Sha512Oracle {
    open spec fn spec_challenge(h: int, x_prime: int) -> int {
        md(le_value(sha512(transcript(h as nat, x_prime as nat))) as int)
    }

    fn challenge(h: &G1, x_prime: &G1) -> (c: Scalar) {
        let mut buf = bytes_of(&NIZK_DOMAIN_SEP);
        let mut b0 = h.to_compressed_bytes();
        buf.append(&mut b0);
        let mut b1 = x_prime.to_compressed_bytes();
        buf.append(&mut b1);
        let hash_output = sha512_digest(&buf);
        Scalar::from_le_bytes_mod_order(hash_output.as_slice())
    }
}

/// Statement: a group element `h` in G1 claimed to equal `[w]_1`.
pub struct Statement {
    pub h: G1,
}

impl View for Statement {
    type V = int;

    /// The discrete logarithm of `h`.
    open spec fn view(&self) -> int {
        self.h.dlog()
    }
}

/// Proof `π = (ŵ, x')` in Fr × G1.
pub struct Proof {
    pub w_hat: Scalar,
    pub x_prime: G1,
}

impl View for Proof {
    type V = (int, int);

    /// `ŵ` and the discrete logarithm of `x'`.
    open spec fn view(&self) -> (int, int) {
        (self.w_hat@ as int, self.x_prime.dlog())
    }
}

impl Statement {
    /// A copy of the statement.
    pub fn duplicate(&self) -> (r: Statement)
        ensures
            r@ == self@,
    {
        Statement { h: self.h.duplicate() }
    }
}

impl Proof {
    /// A copy of the proof.
    pub fn duplicate(&self) -> (r: Proof)
        ensures
            r@ == self@,
    {
        Proof { w_hat: self.w_hat.duplicate(), x_prime: self.x_prime.duplicate() }
    }
}

impl Proof {
    /// The compressed encoding of the proof, its fields in order: the 32
    /// little-endian bytes of `ŵ`, then the 48-byte compressed encoding of
    /// `x'`.
    pub fn to_compressed_bytes(&self) -> (b: Vec<u8>)
        ensures
            b@.len() == 80,
            le_value(b@.take(32)) == self.w_hat@,
            b@.subrange(32, 80) == g1_compressed(self.x_prime.dlog() as nat),
            self.w_hat@ < modulus(),
            0 <= self.x_prime.dlog() < modulus(),
    {
        proof {
            use_type_invariant(&self.w_hat);
            self.x_prime.lemma_dlog_bound();
        }
        let mut b = self.w_hat.to_compressed_bytes();
        let mut x = self.x_prime.to_compressed_bytes();
        let ghost w = b@;
        let ghost xb = x@;
        b.append(&mut x);
        proof {
            assert(b@.take(32) =~= w);
            assert(b@.subrange(32, 80) =~= xb);
        }
        b
    }

    /// Reads a proof back from its compressed encoding, as the derived
    /// deserializer does: `ŵ` from the first 32 bytes and `x'` from the next
    /// 48, any further bytes left unread. `None` when there are fewer than 80
    /// bytes, when `ŵ` is not below r, or when the point bytes encode no
    /// element of G1. An encoding of `(ŵ, x')` reads back as exactly that
    /// proof.
    pub fn from_compressed_bytes(b: &[u8]) -> (r: Option<Proof>)
        ensures
            r is Some <==> (b@.len() >= 80 && le_value(b@.take(32)) < modulus() && exists|k: nat|
                k < modulus() && b@.subrange(32, 80) == #[trigger] g1_compressed(k)),
            r matches Some(p) ==> p.w_hat@ == le_value(b@.take(32)) && b@.subrange(32, 80)
                == g1_compressed(p.x_prime.dlog() as nat),
            forall|k: nat|
                b@.len() >= 80 && le_value(b@.take(32)) < modulus() && k < modulus() && b@.subrange(
                    32,
                    80,
                ) == #[trigger] g1_compressed(k) ==> (r matches Some(p) && p@ == (
                    le_value(b@.take(32)) as int,
                    k as int,
                )),
    {
        if b.len() < 80 {
            return None;
        }
        let wb = vstd::slice::slice_subrange(b, 0, 32);
        let xb = vstd::slice::slice_subrange(b, 32, 80);
        proof {
            assert(wb@ =~= b@.take(32));
        }
        let w_hat = match Scalar::from_compressed_bytes(wb) {
            Some(w) => w,
            None => {
                return None;
            },
        };
        let x_prime = match G1::from_compressed_bytes(xb) {
            Some(x) => x,
            None => {
                return None;
            },
        };
        Some(Proof { w_hat, x_prime })
    }
}

/// The views of a sequence of statements.
pub open spec fn statement_views(s: Seq<Statement>) -> Seq<int> {
    s.map_values(|x: Statement| x@)
}

/// The views of a sequence of proofs.
pub open spec fn proof_views(s: Seq<Proof>) -> Seq<(int, int)> {
    s.map_values(|x: Proof| x@)
}

/// The values of a sequence of field elements.
pub open spec fn scalar_values(s: Seq<Scalar>) -> Seq<int> {
    s.map_values(|x: Scalar| x@ as int)
}

/// The challenge of a proof `p` for a statement `h`.
pub open spec fn challenge_of<H: TranscriptOracle>(h: int, p: (int, int)) -> int {
    H::spec_challenge(h, p.1)
}

/// The verifier's check `x' + c·h = [ŵ]_1`.
pub open spec fn accepts<H: TranscriptOracle>(h: int, p: (int, int)) -> bool {
    md(p.1 + challenge_of::<H>(h, p) * h) == md(p.0)
}

/// What the prover outputs for witness `w`, with `w' = dlog(x')` its random
/// nonce: `ŵ = w' + c·w`.
pub open spec fn honest_proof<H: TranscriptOracle>(h: int, w: int, p: (int, int)) -> bool {
    p.0 == md(p.1 + challenge_of::<H>(h, p) * w)
}

/// Proves knowledge of `w` with `h = [w]_1`: samples `w'`, sets
/// `x' = [w']_1`, `c = H(h, x')` and `ŵ = w' + c·w`.
pub fn prove<H: TranscriptOracle>(
    statement: &Statement,
    witness: &Scalar,
    rng: &mut ark_std::rand::rngs::StdRng,
) -> (p: Proof)
    ensures
        honest_proof::<H>(statement@, witness@ as int, p@),
        p.x_prime.dlog() < modulus(),
{
    let w_prime = Scalar::random(rng);
    let x_prime = G1::generator().times(&w_prime);
    let c = H::challenge(&statement.h, &x_prime);
    let w_hat = w_prime.add(&c.mul(witness));
    proof {
        lemma_md_small(w_prime@ as int);
        lemma_md_add(w_prime@ as int, c@ * witness@ as int);
        lemma_md_small(c@ * witness@ as int);
    }
    Proof { w_hat, x_prime }
}

/// Verifies a proof: with `c = H(h, x')`, accepts iff `x' + c·h == [ŵ]_1`.
pub fn verify<H: TranscriptOracle>(statement: &Statement, proof: &Proof) -> (r: bool)
    ensures
        r == accepts::<H>(statement@, proof@),
{
    let c = H::challenge(&statement.h, &proof.x_prime);
    let lhs = proof.x_prime.plus(&statement.h.times(&c));
    let rhs = G1::generator().times(&proof.w_hat);
    proof {
        lemma_md_add(proof.x_prime.dlog() as int, statement.h.dlog() * c@);
        lemma_md_small(statement.h.dlog() * c@);
        lemma_md_small(proof.x_prime.dlog() as int);
        assert(statement.h.dlog() * c@ == c@ * statement.h.dlog()) by (nonlinear_arith);
    }
    lhs.equals(&rhs)
}

/// `Σ_{j<n} γ_j · (x'_j + c_j · h_j)`.
pub open spec fn batch_sum<H: TranscriptOracle>(
    st: Seq<int>,
    pf: Seq<(int, int)>,
    gs: Seq<int>,
    n: int,
) -> int
    decreases n,
{
    if n <= 0 {
        0
    } else {
        let j = n - 1;
        batch_sum::<H>(st, pf, gs, j) + gs[j] * (pf[j].1 + challenge_of::<H>(st[j], pf[j]) * st[j])
    }
}

/// `Σ_{j<n} γ_j · ŵ_j`.
pub open spec fn batch_sum_w(pf: Seq<(int, int)>, gs: Seq<int>, n: int) -> int
    decreases n,
{
    if n <= 0 {
        0
    } else {
        batch_sum_w(pf, gs, n - 1) + gs[n - 1] * pf[n - 1].0
    }
}

/// The batched check with weights `γ_j`:
/// `Σ γ_j x'_j + Σ γ_j c_j h_j = (Σ γ_j ŵ_j)·[1]_1`.
pub open spec fn batch_accepts<H: TranscriptOracle>(
    st: Seq<int>,
    pf: Seq<(int, int)>,
    gs: Seq<int>,
) -> bool {
    let n = st.len() as int;
    n == 0 || md(batch_sum::<H>(st, pf, gs, n)) == md(batch_sum_w(pf, gs, n))
}

/// Every proof of the batch is accepted on its own.
pub open spec fn all_accept<H: TranscriptOracle>(st: Seq<int>, pf: Seq<(int, int)>) -> bool {
    forall|j: int| 0 <= j < st.len() ==> #[trigger] accepts::<H>(st[j], pf[j])
}

/// One more term of an MSM pair reduces like one more term of the batched sum.
proof fn lemma_msm_step(t1: int, t2: int, l: int, xp: int, g: int, h: int, gc: int, c: int)
    requires
        md(t1 + t2) == md(l),
        gc == md(g * c),
    ensures
        md((t1 + xp * g) + (t2 + h * gc)) == md(l + g * (xp + c * h)),
{
    lemma_md_mul(h, gc);
    lemma_md_mul(h, g * c);
    lemma_md_small(g * c);
    lemma_md_add(t1 + t2, xp * g + h * gc);
    lemma_md_add(l, xp * g + h * (g * c));
    lemma_md_add(xp * g, h * gc);
    lemma_md_add(xp * g, h * (g * c));
    assert(g * (xp + c * h) == xp * g + h * (g * c)) by (nonlinear_arith);
    assert((t1 + xp * g) + (t2 + h * gc) == (t1 + t2) + (xp * g + h * gc));
}

/// MSM sums agree on sequences that agree on the summed prefix.
proof fn lemma_msm_sum_agree(b0: Seq<G1>, b1: Seq<G1>, s0: Seq<Scalar>, s1: Seq<Scalar>, j: int)
    requires
        0 <= j <= b0.len(),
        j <= b1.len(),
        j <= s0.len(),
        j <= s1.len(),
        forall|i: int| 0 <= i < j ==> b0[i] == b1[i] && s0[i] == s1[i],
    ensures
        msm_sum(b1, s1, j) == msm_sum(b0, s0, j),
    decreases j,
{
    if j > 0 {
        lemma_msm_sum_agree(b0, b1, s0, s1, j - 1);
    }
}

/// Batch-verifies proofs with the given weights `γ_j` in one randomized
/// MSM check.
pub fn verify_batch_with_weights<H: TranscriptOracle>(
    statements: &[Statement],
    proofs: &[Proof],
    gammas: &[Scalar],
) -> (r: bool)
    requires
        statements@.len() == proofs@.len(),
        gammas@.len() == statements@.len(),
    ensures
        r == batch_accepts::<H>(
            statement_views(statements@),
            proof_views(proofs@),
            scalar_values(gammas@),
        ),
{
    let ell = statements.len();
    let ghost st = statement_views(statements@);
    let ghost pf = proof_views(proofs@);
    let ghost gs = scalar_values(gammas@);
    if ell == 0 {
        return true;
    }
    let mut gamma_c: Vec<Scalar> = Vec::new();
    let mut gammas_v: Vec<Scalar> = Vec::new();
    let mut x_primes: Vec<G1> = Vec::new();
    let mut hs: Vec<G1> = Vec::new();
    let mut sum_gamma_w = Scalar::zero();
    let mut j: usize = 0;
    proof {
        lemma_md_small(0);
    }
    while j < ell
        invariant
            ell == statements@.len(),
            ell == proofs@.len(),
            ell == gammas@.len(),
            st == statement_views(statements@),
            pf == proof_views(proofs@),
            gs == scalar_values(gammas@),
            0 <= j <= ell,
            gamma_c@.len() == j,
            gammas_v@.len() == j,
            x_primes@.len() == j,
            hs@.len() == j,
            sum_gamma_w@ == md(batch_sum_w(pf, gs, j as int)),
            md(msm_sum(x_primes@, gammas_v@, j as int) + msm_sum(hs@, gamma_c@, j as int)) == md(
                batch_sum::<H>(st, pf, gs, j as int),
            ),
        decreases ell - j,
    {
        let s = &statements[j];
        let p = &proofs[j];
        let g = &gammas[j];
        let c = H::challenge(&s.h, &p.x_prime);
        let gc = g.mul(&c);
        proof {
            use_type_invariant(g);
            assert(st[j as int] == s@);
            assert(pf[j as int] == p@);
            assert(gs[j as int] == g@);
            lemma_msm_step(
                msm_sum(x_primes@, gammas_v@, j as int),
                msm_sum(hs@, gamma_c@, j as int),
                batch_sum::<H>(st, pf, gs, j as int),
                p.x_prime.dlog(),
                g@ as int,
                s.h.dlog(),
                gc@ as int,
                challenge_of::<H>(s@, p@),
            );
            lemma_md_add(batch_sum_w(pf, gs, j as int), g@ * p.w_hat@ as int);
            lemma_md_small(batch_sum_w(pf, gs, j as int));
            lemma_md_small(g@ * p.w_hat@ as int);
        }
        sum_gamma_w = sum_gamma_w.add(&g.mul(&p.w_hat));
        let ghost prev = (x_primes@, hs@, gammas_v@, gamma_c@);
        x_primes.push(p.x_prime.duplicate());
        hs.push(s.h.duplicate());
        gammas_v.push(g.duplicate());
        gamma_c.push(gc);
        proof {
            lemma_msm_sum_agree(prev.0, x_primes@, prev.2, gammas_v@, j as int);
            lemma_msm_sum_agree(prev.1, hs@, prev.3, gamma_c@, j as int);
        }
        j += 1;
    }
    // Σ γ_j x'_j + Σ γ_j c_j h_j == (Σ γ_j ŵ_j) · [1]_1
    let lhs = G1::msm(&x_primes, &gammas_v).plus(&G1::msm(&hs, &gamma_c));
    let rhs = G1::generator().times(&sum_gamma_w);
    proof {
        lemma_md_add(msm_sum(x_primes@, gammas_v@, ell as int), msm_sum(hs@, gamma_c@, ell as int));
        lemma_md_small(batch_sum_w(pf, gs, ell as int));
    }
    lhs.equals(&rhs)
}

/// Batch-verifies many DLOG proofs: draws random weights `γ_j` and runs one
/// randomized MSM check. Accepts every batch of proofs that are each
/// accepted on their own, and the empty batch.
///
/// The result is the batched check of [`verify_batch_with_weights`] under
/// the weights drawn from `rng`. Those weights rest on the generator's
/// state, so the contract only says that some weights give the result; that
/// clause holds of every outcome (all-zero weights pass any batch) and does
/// not pin the result down. For an exact check, draw the weights and call
/// [`verify_batch_with_weights`]. An empty batch draws nothing.
pub fn verify_batch<H: TranscriptOracle>(
    statements: &[Statement],
    proofs: &[Proof],
    rng: &mut ark_std::rand::rngs::StdRng,
) -> (r: bool)
    requires
        statements@.len() == proofs@.len(),
    ensures
        statements@.len() == 0 ==> r && *final(rng) == *old(rng),
        all_accept::<H>(statement_views(statements@), proof_views(proofs@)) ==> r,
        exists|gs: Seq<int>|
            gs.len() == statements@.len() && r == batch_accepts::<H>(
                statement_views(statements@),
                proof_views(proofs@),
                gs,
            ),
        statements@.len() > 0 ==> drawn_batch_decides::<H>(
            statement_views(statements@),
            proof_views(proofs@),
            r,
        ),
{
    if statements.len() == 0 {
        proof {
            let e = Seq::<int>::empty();
            assert(batch_accepts::<H>(statement_views(statements@), proof_views(proofs@), e));
        }
        return true;
    }
    let ell = statements.len();
    let mut gammas: Vec<Scalar> = Vec::new();
    let mut i: usize = 0;
    while i < ell
        invariant
            0 <= i <= ell,
            gammas@.len() == i,
            forall|j: int| 0 <= j < i ==> is_drawn(#[trigger] gammas@[j]),
        decreases ell - i,
    {
        let draw = Scalar::random;
        let g = draw(rng);
        gammas.push(g);
        i += 1;
    }
    let r = verify_batch_with_weights::<H>(statements, proofs, gammas.as_slice());
    proof {
        let st = statement_views(statements@);
        let pf = proof_views(proofs@);
        let gs = scalar_values(gammas@);
        if all_accept::<H>(st, pf) {
            lemma_batch_complete::<H>(st, pf, gs);
        }
        assert forall|i: int|
            0 <= i < gammas@.len() && one_failure::<H>(st, pf, i) implies (r <==> md(
                #[trigger] gammas@[i]@ * discrepancy::<H>(st[i], pf[i]),
            ) == 0) by {
            lemma_batch_one_failure::<H>(st, pf, gs, i);
        }
        assert(drawn_batch_decides::<H>(st, pf, r));
    }
    r
}

/// Batch verification is complete: whatever the weights, a batch of proofs
/// that are each accepted passes the batched check.
pub proof fn lemma_batch_complete<H: TranscriptOracle>(
    st: Seq<int>,
    pf: Seq<(int, int)>,
    gs: Seq<int>,
)
    requires
        st.len() == pf.len(),
        gs.len() == st.len(),
        all_accept::<H>(st, pf),
    ensures
        batch_accepts::<H>(st, pf, gs),
{
    lemma_batch_sums::<H>(st, pf, gs, st.len() as int);
}

proof fn lemma_batch_sums<H: TranscriptOracle>(
    st: Seq<int>,
    pf: Seq<(int, int)>,
    gs: Seq<int>,
    n: int,
)
    requires
        0 <= n <= st.len(),
        st.len() == pf.len(),
        gs.len() == st.len(),
        all_accept::<H>(st, pf),
    ensures
        md(batch_sum::<H>(st, pf, gs, n)) == md(batch_sum_w(pf, gs, n)),
    decreases n,
{
    if n > 0 {
        let j = n - 1;
        lemma_batch_sums::<H>(st, pf, gs, j);
        assert(accepts::<H>(st[j], pf[j]));
        let g = gs[j];
        let a = pf[j].1 + challenge_of::<H>(st[j], pf[j]) * st[j];
        let w = pf[j].0;
        lemma_md_mul(g, a);
        lemma_md_mul(g, w);
        lemma_md_add(batch_sum::<H>(st, pf, gs, j), g * a);
        lemma_md_add(batch_sum_w(pf, gs, j), g * w);
    }
}

/// How far a proof is from the verifier's check: `x' + c·h − ŵ`, in the
/// exponent. A proof is accepted exactly when this is a multiple of r.
pub open spec fn discrepancy<H: TranscriptOracle>(h: int, p: (int, int)) -> int {
    p.1 + challenge_of::<H>(h, p) * h - p.0
}

/// Some weights, each a value drawn by [`Scalar::random`], make the batched
/// check come out as `ok`; so when every proof but the `i`-th is accepted,
/// `ok` holds exactly when that proof's drawn weight cancels its
/// discrepancy.
pub open spec fn drawn_batch_decides<H: TranscriptOracle>(
    st: Seq<int>,
    pf: Seq<(int, int)>,
    ok: bool,
) -> bool {
    exists|gs: Seq<Scalar>|
        #![trigger scalar_values(gs)]
        gs.len() == st.len() && (forall|j: int| 0 <= j < gs.len() ==> is_drawn(#[trigger] gs[j]))
            && ok == batch_accepts::<H>(st, pf, scalar_values(gs)) && (forall|i: int|
            0 <= i < gs.len() && one_failure::<H>(st, pf, i) ==> (ok <==> md(
                #[trigger] gs[i]@ * discrepancy::<H>(st[i], pf[i]),
            ) == 0))
}

/// Every proof of the batch but the `i`-th is accepted on its own.
pub open spec fn one_failure<H: TranscriptOracle>(st: Seq<int>, pf: Seq<(int, int)>, i: int) -> bool {
    forall|j: int| 0 <= j < st.len() && j != i ==> #[trigger] accepts::<H>(st[j], pf[j])
}

/// The batched sums differ by the weighted discrepancy of the one proof
/// that may fail.
proof fn lemma_batch_diff<H: TranscriptOracle>(
    st: Seq<int>,
    pf: Seq<(int, int)>,
    gs: Seq<int>,
    i: int,
    n: int,
)
    requires
        0 <= n <= st.len(),
        st.len() == pf.len(),
        gs.len() == st.len(),
        0 <= i < st.len(),
        forall|j: int| 0 <= j < st.len() && j != i ==> #[trigger] accepts::<H>(st[j], pf[j]),
    ensures
        md(batch_sum::<H>(st, pf, gs, n) - batch_sum_w(pf, gs, n)) == (if i < n {
            md(gs[i] * discrepancy::<H>(st[i], pf[i]))
        } else {
            0
        }),
    decreases n,
{
    lemma_md_small(0);
    if n > 0 {
        let j = n - 1;
        lemma_batch_diff::<H>(st, pf, gs, i, j);
        let g = gs[j];
        let a = pf[j].1 + challenge_of::<H>(st[j], pf[j]) * st[j];
        let w = pf[j].0;
        let d0 = batch_sum::<H>(st, pf, gs, j) - batch_sum_w(pf, gs, j);
        let t = g * discrepancy::<H>(st[j], pf[j]);
        assert(g * a - g * w == t) by (nonlinear_arith)
            requires
                t == g * (a - w),
        ;
        assert(batch_sum::<H>(st, pf, gs, n) - batch_sum_w(pf, gs, n) == d0 + t);
        lemma_md_add(d0, t);
        lemma_md_small(d0);
        lemma_md_small(t);
        if j != i {
            assert(accepts::<H>(st[j], pf[j]));
            lemma_cong_iff_diff(a, w);
            lemma_zero_factor(discrepancy::<H>(st[j], pf[j]), g);
            let dd = discrepancy::<H>(st[j], pf[j]);
            assert(dd * g == g * dd) by (nonlinear_arith);
        }
    }
}

/// Batch verification with one faulty proof: when every proof but the
/// `i`-th is accepted on its own, the batched check with weights `γ` passes
/// exactly when `γ_i` times the `i`-th proof's discrepancy is a multiple of
/// r. So a zero weight lets the faulty proof through, and a weight with an
/// inverse modulo r catches it.
pub proof fn lemma_batch_one_failure<H: TranscriptOracle>(
    st: Seq<int>,
    pf: Seq<(int, int)>,
    gs: Seq<int>,
    i: int,
)
    requires
        st.len() == pf.len(),
        gs.len() == st.len(),
        0 <= i < st.len(),
        forall|j: int| 0 <= j < st.len() && j != i ==> #[trigger] accepts::<H>(st[j], pf[j]),
    ensures
        batch_accepts::<H>(st, pf, gs) <==> md(gs[i] * discrepancy::<H>(st[i], pf[i])) == 0,
        md(gs[i]) == 0 ==> batch_accepts::<H>(st, pf, gs),
        invertible(gs[i]) && !accepts::<H>(st[i], pf[i]) ==> !batch_accepts::<H>(st, pf, gs),
{
    let n = st.len() as int;
    let d = discrepancy::<H>(st[i], pf[i]);
    lemma_batch_diff::<H>(st, pf, gs, i, n);
    lemma_cong_iff_diff(batch_sum::<H>(st, pf, gs, n), batch_sum_w(pf, gs, n));
    if md(gs[i]) == 0 {
        lemma_zero_factor(gs[i], d);
    }
    if invertible(gs[i]) && md(gs[i] * d) == 0 {
        lemma_unit_cancel(gs[i], d);
        lemma_cong_iff_diff(pf[i].1 + challenge_of::<H>(st[i], pf[i]) * st[i], pf[i].0);
    }
}

/// A batch whose result is decided by drawn weights and that holds exactly
/// one proof that is not accepted on its own is accepted only if the weight
/// drawn for that proof has no inverse modulo r.
pub proof fn lemma_drawn_batch_one_bad<H: TranscriptOracle>(
    st: Seq<int>,
    pf: Seq<(int, int)>,
    ok: bool,
    i: int,
)
    requires
        drawn_batch_decides::<H>(st, pf, ok),
        st.len() == pf.len(),
        0 <= i < st.len(),
        one_failure::<H>(st, pf, i),
        !accepts::<H>(st[i], pf[i]),
    ensures
        ok ==> exists|g: Scalar| is_drawn(g) && !invertible(g@ as int),
{
    let gs = choose|gs: Seq<Scalar>|
        #![trigger scalar_values(gs)]
        gs.len() == st.len() && (forall|j: int| 0 <= j < gs.len() ==> is_drawn(#[trigger] gs[j]))
            && ok == batch_accepts::<H>(st, pf, scalar_values(gs)) && (forall|k: int|
            0 <= k < gs.len() && one_failure::<H>(st, pf, k) ==> (ok <==> md(
                #[trigger] gs[k]@ * discrepancy::<H>(st[k], pf[k]),
            ) == 0));
    if ok {
        let g = gs[i];
        assert(is_drawn(g));
        assert(md(g@ * discrepancy::<H>(st[i], pf[i])) == 0);
        if invertible(g@ as int) {
            lemma_unit_cancel(g@ as int, discrepancy::<H>(st[i], pf[i]));
            lemma_cong_iff_diff(pf[i].1 + challenge_of::<H>(st[i], pf[i]) * st[i], pf[i].0);
        }
    }
}

/// A proof made honestly with a witness `w2` for a statement `h = [w]_1`
/// is accepted exactly when `c·(w − w2)` is a multiple of r, `c` its
/// challenge: with `c = 0` any witness passes, and with an invertible `c`
/// a witness that differs from `w` modulo r is rejected.
pub proof fn lemma_wrong_witness<H: TranscriptOracle>(h: int, w: int, w2: int, p: (int, int))
    requires
        h == md(w),
        honest_proof::<H>(h, w2, p),
    ensures
        accepts::<H>(h, p) <==> md(challenge_of::<H>(h, p) * (w - w2)) == 0,
        md(challenge_of::<H>(h, p)) == 0 ==> accepts::<H>(h, p),
        invertible(challenge_of::<H>(h, p)) && md(w - w2) != 0 ==> !accepts::<H>(h, p),
{
    let c = challenge_of::<H>(h, p);
    let a = p.1 + c * w;
    let b = p.1 + c * w2;
    lemma_md_small(w);
    lemma_md_small(c);
    lemma_cong_mul(c, w, c, h);
    lemma_md_small(p.1);
    lemma_cong_add(p.1, c * w, p.1, c * h);
    lemma_md_small(b);
    // accepts ⇔ md(a) == md(b) ⇔ md(a − b) == 0, and a − b = c·(w − w2)
    assert(a - b == c * (w - w2)) by (nonlinear_arith)
        requires
            a == p.1 + c * w,
            b == p.1 + c * w2,
    ;
    lemma_cong_iff_diff(a, b);
    if md(c) == 0 {
        lemma_zero_factor(c, w - w2);
    }
    if invertible(c) && md(c * (w - w2)) == 0 {
        lemma_unit_cancel(c, w - w2);
    }
}

/// Completeness: an honest proof for a true statement (`h = [w]_1`) is
/// accepted.
pub proof fn lemma_honest_accepts<H: TranscriptOracle>(h: int, w: int, p: (int, int))
    requires
        h == md(w),
        honest_proof::<H>(h, w, p),
    ensures
        accepts::<H>(h, p),
{
    let c = challenge_of::<H>(h, p);
    lemma_md_mul(c, h);
    lemma_md_mul(c, w);
    lemma_md_small(w);
    lemma_md_add(p.1, c * h);
    lemma_md_add(p.1, c * w);
    lemma_md_small(p.0);
}

} // verus!
