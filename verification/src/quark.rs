//! Proofs of grand products by the technique of Section 5 of the Quarks paper.
//!
//! The prover commits to the partial products `g(x) = f(1, x)` of the leaves `h` and
//! proves by a sum-check that they are the products that they should be. What is left
//! to check are values of `g`, which it opens, and two values of `h`, which a line
//! reduction takes to one value at a random point. That point and value are handed to
//! the caller.
use crate::arith;
use crate::combination;
use crate::combination::{QuarkCombination, QuarkRule};
use crate::commitment::{BatchType, CommitmentScheme};
use crate::errors::QuarkError;
use crate::field;
use crate::field::JoltField;
use crate::line_reduction;
use crate::math;
use crate::mle;
use crate::poly;
use crate::poly::{DensePolynomial, EqPolynomial};
use crate::product_table;
use crate::quark_identity;
use crate::sumcheck;
use crate::sumcheck::SumcheckInstanceProof;
use crate::transcript;
use crate::transcript::{AppendToTranscript, ProofTranscript};
use vstd::arithmetic::power2::*;
use vstd::prelude::*;

verus! {

/// A proof of a batch of grand products.
pub struct QuarkGrandProductProof<C: CommitmentScheme> {
    /// The sum-check on the partial products.
    pub sumcheck_proof: SumcheckInstanceProof<C::Field>,
    /// The commitments to `g`.
    pub g_commitment: Vec<C::Commitment>,
    /// The values of `g` at the challenges `r` of the sum-check, with their proof.
    pub claimed_eval_g_r: (Vec<C::Field>, C::BatchedProof),
    /// The values of `g` at `(r', 0)` and at `(r', 1)` for `r = (r_1, r')`, with a proof.
    pub claimed_eval_g_r_x: (Vec<C::Field>, Vec<C::Field>, C::BatchedProof),
    /// The values of the leaves at `(r', 0)` and at `(r', 1)`.
    pub helper_values: (Vec<C::Field>, Vec<C::Field>),
    /// The number of variables of the leaves.
    pub num_vars: usize,
}

/// The state of the transcript after the commitments.
pub open spec fn absorb_commitments<A: AppendToTranscript>(
    state: Seq<u8>,
    commitments: Seq<A>,
) -> Seq<u8>
    decreases commitments.len(),
{
    if commitments.len() == 0 {
        state
    } else {
        commitments.last().absorbed(
            absorb_commitments(state, commitments.drop_last()),
            "f commitment"@,
        )
    }
}

/// The state of the transcript after the claimed products and the commitments.
pub open spec fn committed_state<C: CommitmentScheme>(
    state: Seq<u8>,
    claims: Seq<int>,
    commitments: Seq<C::Commitment>,
) -> Seq<u8> {
    absorb_commitments(
        transcript::absorb_scalars::<C::Field>(state, "grand product claim"@, claims),
        commitments,
    )
}

/// The random point `tau` with `n` coordinates.
pub open spec fn drawn_tau<F: JoltField>(state: Seq<u8>, n: nat) -> Seq<int> {
    transcript::challenges::<F>(state, "element for eval poly"@, n)
}

/// The `l` random coefficients that are drawn after `tau`.
pub open spec fn drawn_rho<F: JoltField>(state: Seq<u8>, n: nat, l: nat) -> Seq<int> {
    transcript::challenges::<F>(
        transcript::squeeze_many(state, "element for eval poly"@, n),
        "for the random linear comb"@,
        l,
    )
}

/// The state of the transcript after `tau` and the coefficients.
pub open spec fn drawn_state(state: Seq<u8>, n: nat, l: nat) -> Seq<u8> {
    transcript::squeeze_many(
        transcript::squeeze_many(state, "element for eval poly"@, n),
        "for the random linear comb"@,
        l,
    )
}

/// The commitments are added one after the other.
pub proof fn lemma_absorb_commitments<A: AppendToTranscript>(
    state: Seq<u8>,
    commitments: Seq<A>,
    next: A,
)
    ensures
        absorb_commitments(state, Seq::<A>::empty()) == state,
        absorb_commitments(state, commitments.push(next)) == next.absorbed(
            absorb_commitments(state, commitments),
            "f commitment"@,
        ),
{
    assert(commitments.push(next).drop_last() =~= commitments);
}

/// The point `tau` is drawn in the state after the claims and the commitments, coordinate by
/// coordinate, and the coefficients in the state after `tau`.
pub proof fn lemma_drawn<C: CommitmentScheme>(
    state: Seq<u8>,
    claims: Seq<int>,
    commitments: Seq<C::Commitment>,
    n: nat,
    l: nat,
)
    ensures
        ({
            let s0 = transcript::absorb_scalars::<C::Field>(state, "grand product claim"@, claims);
            let s1 = committed_state::<C>(state, claims, commitments);
            let eval = "element for eval poly"@;
            let comb = "for the random linear comb"@;
            &&& s1 == absorb_commitments(s0, commitments)
            &&& drawn_tau::<C::Field>(s1, n) == transcript::challenges::<C::Field>(s1, eval, n)
            &&& drawn_tau::<C::Field>(s1, n + 1) == drawn_tau::<C::Field>(s1, n).push(
                C::Field::decoding(transcript::squeeze_many(s1, eval, n + 1)),
            )
            &&& drawn_rho::<C::Field>(s1, n, l) == transcript::challenges::<C::Field>(
                transcript::squeeze_many(s1, eval, n),
                comb,
                l,
            )
            &&& drawn_rho::<C::Field>(s1, n, l + 1) == drawn_rho::<C::Field>(s1, n, l).push(
                C::Field::decoding(drawn_state(s1, n, l + 1)),
            )
            &&& drawn_state(s1, n, l) == transcript::squeeze_many(
                transcript::squeeze_many(s1, eval, n),
                comb,
                l,
            )
        }),
{
    let s1 = committed_state::<C>(state, claims, commitments);
    transcript::lemma_draws::<C::Field>(s1, "element for eval poly"@, n);
    transcript::lemma_draws::<C::Field>(
        transcript::squeeze_many(s1, "element for eval poly"@, n),
        "for the random linear comb"@,
        l,
    );
}

/// The messages of the prover are those of the sum-check with `tau` and coefficients that are
/// drawn after the products and the commitments. It opens the partial products at the
/// challenges, and at a coordinate that is drawn after its values at both ends of the line.
pub proof fn lemma_prover<C: CommitmentScheme>(
    leaves: Seq<Seq<int>>,
    n: nat,
    setup: C::Setup,
    state: Seq<u8>,
    proof: QuarkGrandProductProof<C>,
    point: Seq<int>,
    claims: Seq<int>,
    end: Seq<u8>,
)
    requires
        proves(leaves, n, setup, state, proof, point, claims, end),
    ensures
        ({
            let m = C::Field::modulus();
            let l = leaves.len();
            let cs = proof.g_commitment@;
            let g = quark_identity::g_tables(leaves, m);
            let s0 = transcript::absorb_scalars::<C::Field>(
                state,
                "grand product claim"@,
                Seq::new(l, |i: int| arith::product(leaves[i]) % m),
            );
            let s1 = absorb_commitments(s0, cs);
            let st = transcript::squeeze_many(s1, "element for eval poly"@, n);
            let s2 = transcript::squeeze_many(st, "for the random linear comb"@, l);
            let tau = transcript::challenges::<C::Field>(s1, "element for eval poly"@, n);
            let rho = transcript::challenges::<C::Field>(st, "for the random linear comb"@, l);
            let msgs = proof.sumcheck_proof@;
            let x = sumcheck::round_challenges::<C::Field>(s2, msgs);
            let s3 = sumcheck::rounds_state::<C::Field>(s2, msgs);
            let one_r = poly::evals_at(g, x, m);
            let s4 = C::after_prove(
                setup,
                g,
                x,
                one_r,
                BatchType::Big,
                s3,
                proof.claimed_eval_g_r.1,
            );
            let rp = x.drop_first();
            let g_0 = poly::evals_at(g, rp.push(0), m);
            let g_1 = poly::evals_at(g, rp.push(1), m);
            let s5 = transcript::squeeze(
                transcript::absorb_scalars::<C::Field>(
                    transcript::absorb_scalars::<C::Field>(
                        s4,
                        "claims for line reduction 0"@,
                        g_0,
                    ),
                    "claims for line reduction 1"@,
                    g_1,
                ),
                "loading r_star"@,
            );
            let g_point = rp.push(C::Field::decoding(s5));
            let g_proof = proof.claimed_eval_g_r_x.2;
            let s6 = C::after_prove(
                setup,
                g,
                g_point,
                poly::evals_at(g, g_point, m),
                BatchType::Big,
                s5,
                g_proof,
            );
            let h_0 = poly::evals_at(leaves, rp.push(0), m);
            let h_1 = poly::evals_at(leaves, rp.push(1), m);
            let s7 = transcript::squeeze(
                transcript::absorb_scalars::<C::Field>(
                    transcript::absorb_scalars::<C::Field>(
                        s6,
                        "claims for line reduction 0"@,
                        h_0,
                    ),
                    "claims for line reduction 1"@,
                    h_1,
                ),
                "loading r_star"@,
            );
            &&& C::commits(g, setup, BatchType::Big, cs) && cs.len() == l
            &&& sumcheck::honest(
                (QuarkRule { rho }),
                quark_identity::sumcheck_tables(leaves, tau, m),
                n,
                msgs,
                x,
                m,
            )
            &&& C::opens(setup, g, x, one_r, BatchType::Big, s3, proof.claimed_eval_g_r.1)
            &&& C::opens(
                setup,
                g,
                g_point,
                poly::evals_at(g, g_point, m),
                BatchType::Big,
                s5,
                g_proof,
            )
            &&& field::values(proof.claimed_eval_g_r.0@) == one_r
            &&& field::values(proof.claimed_eval_g_r_x.0@) == g_0
            &&& field::values(proof.claimed_eval_g_r_x.1@) == g_1
            &&& field::values(proof.helper_values.0@) == h_0
            &&& field::values(proof.helper_values.1@) == h_1
            &&& proof.num_vars == n
            &&& end == s7
            &&& point == rp.push(C::Field::decoding(s7))
            &&& claims == poly::evals_at(leaves, point, m)
        }),
{
    reveal(proves);
    let m = C::Field::modulus();
    assert(quark_identity::products(leaves, m) =~= Seq::new(
        leaves.len(),
        |i: int| arith::product(leaves[i]) % m,
    ));
}

/// The combination of the quark sum-check for the grand products of which `f0` has the
/// values of `f(x, 0)`, `f1` those of `f(1, x)` and `fo` those of `f(x, 1)`.
pub open spec fn opened_sum(
    rho: Seq<int>,
    eq: int,
    one: int,
    f1: Seq<int>,
    f0: Seq<int>,
    fo: Seq<int>,
) -> int {
    arith::sum(
        f0.len(),
        |i: int| combination::quark_term(rho[i], eq, one, f1[i], f0[i], fo[i]),
    )
}

/// There is a coefficient, a value `f(1, x)` and a value `f(x, 1)` for each value `f(x, 0)`.
pub open spec fn openings_match(
    rho: Seq<int>,
    f1: Seq<int>,
    f0: Seq<int>,
    fo: Seq<int>,
) -> bool {
    f0.len() <= rho.len() && f0.len() <= f1.len() && f0.len() <= fo.len()
}

/// What the verifier answers to `proof`, and the state in which it leaves the transcript.
///
/// It accepts with the claimed values of the leaves and the point at which they are
/// claimed.
pub open spec fn verdict<C: CommitmentScheme>(
    proof: QuarkGrandProductProof<C>,
    claims: Seq<int>,
    n: nat,
    setup: C::Setup,
    state: Seq<u8>,
) -> (Result<(Seq<int>, Seq<int>), QuarkError>, Seq<u8>) {
    let m = C::Field::modulus();
    let commitments = proof.g_commitment@;
    let s1 = committed_state::<C>(state, claims, commitments);
    let tau = drawn_tau::<C::Field>(s1, n);
    let rho = drawn_rho::<C::Field>(s1, n, commitments.len());
    let s2 = drawn_state(s1, n, commitments.len());
    let msgs = proof.sumcheck_proof@;
    if n == 0 || !sumcheck::well_shaped(msgs, n) {
        (Err(QuarkError::InvalidQuarkSumcheck), s2)
    } else {
        let x = sumcheck::round_challenges::<C::Field>(s2, msgs);
        let s3 = sumcheck::rounds_state::<C::Field>(s2, msgs);
        let claim = combination::combined(claims, rho) % m;
        let expected = sumcheck::running_claim(claim, msgs, x, m);
        let one_r = field::values(proof.claimed_eval_g_r.0@);
        let s4 = C::after_verify(proof.claimed_eval_g_r.1, setup, x, one_r, commitments, s3);
        if !C::accepts(proof.claimed_eval_g_r.1, setup, x, one_r, commitments, s3) {
            (Err(QuarkError::InvalidOpeningProof), s4)
        } else {
            let r_prime = x.drop_first();
            let g_0 = field::values(proof.claimed_eval_g_r_x.0@);
            let g_1 = field::values(proof.claimed_eval_g_r_x.1@);
            let t = line_reduction::line_challenge::<C::Field>(s4, g_0, g_1);
            let g_t = line_reduction::line_claims(g_0, g_1, t, m);
            let s5 = line_reduction::after_line::<C::Field>(s4, g_0, g_1);
            let g_proof = proof.claimed_eval_g_r_x.2;
            let s6 = C::after_verify(g_proof, setup, r_prime.push(t), g_t, commitments, s5);
            if !C::accepts(g_proof, setup, r_prime.push(t), g_t, commitments, s5) {
                (Err(QuarkError::InvalidOpeningProof), s6)
            } else {
                let h_0 = field::values(proof.helper_values.0@);
                let h_1 = field::values(proof.helper_values.1@);
                let u = line_reduction::line_challenge::<C::Field>(s6, h_0, h_1);
                let s7 = line_reduction::after_line::<C::Field>(s6, h_0, h_1);
                let r_0 = line_reduction::line_claims(h_0, g_0, x[0], m);
                let r_1 = line_reduction::line_claims(h_1, g_1, x[0], m);
                let eq = mle::eq_at(x, tau) % m;
                let one = mle::eq_at(x, mle::ones(n)) % m;
                if openings_match(rho, one_r, r_0, r_1) && opened_sum(
                    rho,
                    eq,
                    one,
                    one_r,
                    r_0,
                    r_1,
                ) % m == expected {
                    (Ok((line_reduction::line_claims(h_0, h_1, u, m), r_prime.push(u))), s7)
                } else {
                    (Err(QuarkError::InvalidBinding), s7)
                }
            }
        }
    }
}

/// `proof` is the proof that the protocol prescribes for `leaves`, which are polynomials
/// with `n` variables.
///
/// The prover starts with the transcript in the state `state` and leaves it in the
/// state `end`. It hands on the values `claims` of the leaves at `point`.
#[verifier::opaque]
pub open spec fn proves<C: CommitmentScheme>(
    leaves: Seq<Seq<int>>,
    n: nat,
    setup: C::Setup,
    state: Seq<u8>,
    proof: QuarkGrandProductProof<C>,
    point: Seq<int>,
    claims: Seq<int>,
    end: Seq<u8>,
) -> bool {
    let m = C::Field::modulus();
    let g = quark_identity::g_tables(leaves, m);
    let s1 = committed_state::<C>(
        state,
        quark_identity::products(leaves, m),
        proof.g_commitment@,
    );
    let tau = drawn_tau::<C::Field>(s1, n);
    let rho = drawn_rho::<C::Field>(s1, n, leaves.len());
    let s2 = drawn_state(s1, n, leaves.len());
    let msgs = proof.sumcheck_proof@;
    let x = sumcheck::round_challenges::<C::Field>(s2, msgs);
    let s3 = sumcheck::rounds_state::<C::Field>(s2, msgs);
    let one_r = poly::evals_at(g, x, m);
    let big = BatchType::Big;
    let s4 = C::after_prove(setup, g, x, one_r, big, s3, proof.claimed_eval_g_r.1);
    let r_prime = x.drop_first();
    let g_0 = poly::evals_at(g, r_prime.push(0), m);
    let g_1 = poly::evals_at(g, r_prime.push(1), m);
    let g_point = r_prime.push(line_reduction::line_challenge::<C::Field>(s4, g_0, g_1));
    let g_t = poly::evals_at(g, g_point, m);
    let s5 = line_reduction::after_line::<C::Field>(s4, g_0, g_1);
    let s6 = C::after_prove(setup, g, g_point, g_t, big, s5, proof.claimed_eval_g_r_x.2);
    let h_0 = poly::evals_at(leaves, r_prime.push(0), m);
    let h_1 = poly::evals_at(leaves, r_prime.push(1), m);
    &&& proof.num_vars == n
    &&& proof.g_commitment@.len() == leaves.len()
    &&& C::commits(g, setup, big, proof.g_commitment@)
    &&& sumcheck::honest(
        QuarkRule { rho },
        quark_identity::sumcheck_tables(leaves, tau, m),
        n,
        msgs,
        x,
        m,
    )
    &&& field::values(proof.claimed_eval_g_r.0@) == one_r
    &&& C::opens(setup, g, x, one_r, big, s3, proof.claimed_eval_g_r.1)
    &&& field::values(proof.claimed_eval_g_r_x.0@) == g_0
    &&& field::values(proof.claimed_eval_g_r_x.1@) == g_1
    &&& C::opens(setup, g, g_point, g_t, big, s5, proof.claimed_eval_g_r_x.2)
    &&& field::values(proof.helper_values.0@) == h_0
    &&& field::values(proof.helper_values.1@) == h_1
    &&& point == r_prime.push(line_reduction::line_challenge::<C::Field>(s6, h_0, h_1))
    &&& claims == poly::evals_at(leaves, point, m)
    &&& end == line_reduction::after_line::<C::Field>(s6, h_0, h_1)
}

/// The leaves of each grand product are the values of a polynomial with `n` variables.
pub open spec fn leaves_have_vars<F: JoltField>(leaves: Seq<Vec<F>>, n: nat) -> bool {
    forall|i: int| 0 <= i < leaves.len() ==> (#[trigger] leaves[i])@.len() == pow2(n)
}

/// The combination of the quark sum-check from the opened values.
fn opened_value<F: JoltField>(
    rho: &Vec<F>,
    eq: &F,
    one: &F,
    f1: &Vec<F>,
    f0: &Vec<F>,
    fo: &Vec<F>,
) -> (r: F)
    requires
        openings_match(
            field::values(rho@),
            field::values(f1@),
            field::values(f0@),
            field::values(fo@),
        ),
    ensures
        r@ == opened_sum(
            field::values(rho@),
            eq@,
            one@,
            field::values(f1@),
            field::values(f0@),
            field::values(fo@),
        ) % F::modulus(),
{
    let ghost (c, v1, v0, vo) = (
        field::values(rho@),
        field::values(f1@),
        field::values(f0@),
        field::values(fo@),
    );
    let ghost f = |i: int| combination::quark_term(c[i], eq@, one@, v1[i], v0[i], vo[i]);
    let mut acc = F::zero();
    let mut i: usize = 0;
    proof {
        F::lemma_modulus();
        arith::lemma_reduced_fixed(0, F::modulus());
    }
    while i < f0.len()
        invariant
            i <= f0@.len(),
            openings_match(c, v1, v0, vo),
            c == field::values(rho@),
            v1 == field::values(f1@),
            v0 == field::values(f0@),
            vo == field::values(fo@),
            f == |i: int| combination::quark_term(c[i], eq@, one@, v1[i], v0[i], vo[i]),
            acc@ == arith::sum(i as nat, f) % F::modulus(),
        decreases f0@.len() - i,
    {
        let term = combination::term_value(&rho[i], eq, one, &f1[i], &f0[i], &fo[i]);
        proof {
            sumcheck::lemma_chain::<F>(acc@, arith::sum(i as nat, f), term@, f(i as int));
        }
        acc = acc.add(&term);
        i = i + 1;
    }
    acc
}

/// The vector of `n` ones.
fn ones_vector<F: JoltField>(n: usize) -> (r: Vec<F>)
    ensures
        field::values(r@) == mle::ones(n as nat),
{
    let mut r: Vec<F> = Vec::new();
    let mut i: usize = 0;
    while i < n
        invariant
            i <= n,
            r@.len() == i,
            forall|j: int| 0 <= j < i ==> (#[trigger] r@[j])@ == 1,
        decreases n - i,
    {
        r.push(F::one());
        i = i + 1;
    }
    assert(field::values(r@) =~= mle::ones(n as nat));
    r
}

/// Adds the commitments to the transcript.
fn append_commitments<A: AppendToTranscript>(commitments: &Vec<A>, transcript: &mut ProofTranscript)
    ensures
        final(transcript)@ == absorb_commitments(old(transcript)@, commitments@),
{
    let mut i: usize = 0;
    assert(commitments@.take(0) =~= Seq::<A>::empty());
    while i < commitments.len()
        invariant
            i <= commitments@.len(),
            transcript@ == absorb_commitments(old(transcript)@, commitments@.take(i as int)),
        decreases commitments@.len() - i,
    {
        commitments[i].append_to_transcript("f commitment", transcript);
        assert(commitments@.take(i + 1).drop_last() =~= commitments@.take(i as int));
        i = i + 1;
    }
    assert(commitments@.take(commitments@.len() as int) =~= commitments@);
}

/// All coordinates of `r` but the first.
fn tail<F: JoltField>(r: &Vec<F>) -> (out: Vec<F>)
    requires
        r@.len() > 0,
    ensures
        out@.len() == r@.len() - 1,
        field::values(out@) == field::values(r@).drop_first(),
{
    let mut out: Vec<F> = Vec::new();
    let mut i: usize = 1;
    while i < r.len()
        invariant
            1 <= i <= r@.len(),
            out@.len() == i - 1,
            forall|j: int| 0 <= j < i - 1 ==> (#[trigger] out@[j])@ == r@[j + 1]@,
        decreases r@.len() - i,
    {
        out.push(r[i]);
        i = i + 1;
    }
    assert(field::values(out@) =~= field::values(r@).drop_first());
    out
}

/// The polynomials that the prover works with.
struct ProverPolys<F: JoltField> {
    v_polys: Vec<DensePolynomial<F>>,
    g_polys: Vec<DensePolynomial<F>>,
    sumcheck_polys: Vec<DensePolynomial<F>>,
    products: Vec<F>,
}

/// The polynomials of the leaves, those of their partial products, and the products.
fn prover_polys<F: JoltField>(leaves: &[Vec<F>], Ghost(n): Ghost<nat>) -> (r: ProverPolys<F>)
    requires
        leaves_have_vars(leaves@, n),
        2 * pow2(n) <= usize::MAX,
    ensures
        poly::tables(r.v_polys@) == field::rows(leaves@),
        poly::all_have_vars(r.v_polys@, n),
        poly::tables(r.g_polys@) == quark_identity::g_tables(field::rows(leaves@), F::modulus()),
        poly::all_have_vars(r.g_polys@, n),
        r.sumcheck_polys@.len() == 3 * leaves@.len(),
        poly::all_have_vars(r.sumcheck_polys@, n),
        forall|j: int|
            0 <= j < 3 * leaves@.len() ==> (#[trigger] r.sumcheck_polys@[j])@
                == quark_identity::leaf_table(field::rows(leaves@)[j / 3], j % 3, F::modulus()),
        field::values(r.products@) == quark_identity::products(
            field::rows(leaves@),
            F::modulus(),
        ),
{
    let ghost rows = field::rows(leaves@);
    let ghost m = F::modulus();
    let mut v_polys: Vec<DensePolynomial<F>> = Vec::new();
    let mut g_polys: Vec<DensePolynomial<F>> = Vec::new();
    let mut sumcheck_polys: Vec<DensePolynomial<F>> = Vec::new();
    let mut products: Vec<F> = Vec::new();
    let mut i: usize = 0;
    while i < leaves.len()
        invariant
            i <= leaves@.len(),
            leaves_have_vars(leaves@, n),
            2 * pow2(n) <= usize::MAX,
            rows == field::rows(leaves@),
            m == F::modulus(),
            v_polys@.len() == i,
            g_polys@.len() == i,
            sumcheck_polys@.len() == 3 * i,
            products@.len() == i,
            poly::all_have_vars(v_polys@, n),
            poly::all_have_vars(g_polys@, n),
            poly::all_have_vars(sumcheck_polys@, n),
            forall|j: int| 0 <= j < i ==> (#[trigger] v_polys@[j])@ == rows[j],
            forall|j: int|
                0 <= j < i ==> (#[trigger] g_polys@[j])@ == quark_identity::leaf_table(
                    rows[j],
                    0,
                    m,
                ),
            forall|j: int|
                0 <= j < i ==> (#[trigger] products@[j])@ == arith::product(rows[j]) % m,
            forall|j: int|
                0 <= j < 3 * i ==> (#[trigger] sumcheck_polys@[j])@ == quark_identity::leaf_table(
                    rows[j / 3],
                    j % 3,
                    m,
                ),
        decreases leaves@.len() - i,
    {
        let ghost before = sumcheck_polys@;
        let evals = field::copy_of(leaves[i].as_slice());
        proof {
            assert(leaves@[i as int]@.len() == pow2(n));
            math::lemma_log2_pow2(n);
        }
        let v_polynomial = DensePolynomial::new(evals);
        assert(v_polynomial@ =~= rows[i as int]);
        assert(v_polynomial.has_vars(n));
        let (f_1_r, f_r_0, f_r_1, p) = product_table::v_into_f(&v_polynomial);
        v_polys.push(v_polynomial);
        g_polys.push(f_1_r.copy());
        sumcheck_polys.push(f_1_r);
        sumcheck_polys.push(f_r_0);
        sumcheck_polys.push(f_r_1);
        products.push(p);
        proof {
            assert forall|j: int| 0 <= j < 3 * (i + 1) implies (#[trigger] sumcheck_polys@[j])@
                == quark_identity::leaf_table(rows[j / 3], j % 3, m) && sumcheck_polys@[j].has_vars(
                n,
            ) by {
                if j < 3 * i {
                    assert(sumcheck_polys@[j] == before[j]);
                } else if j == 3 * i {
                    assert(j / 3 == i && j % 3 == 0);
                } else if j == 3 * i + 1 {
                    assert(j / 3 == i && j % 3 == 1);
                } else {
                    assert(j / 3 == i && j % 3 == 2);
                }
            }
        }
        i = i + 1;
    }
    proof {
        assert(poly::tables(v_polys@) =~= rows);
        assert(poly::tables(g_polys@) =~= quark_identity::g_tables(rows, m));
        assert(field::values(products@) =~= quark_identity::products(rows, m));
    }
    ProverPolys { v_polys, g_polys, sumcheck_polys, products }
}

impl<C: CommitmentScheme> QuarkGrandProductProof<C> {
    /// Computes a grand product proof.
    ///
    /// Extends the leaves to the table `f` of their partial products and commits to
    /// `g(x) = f(1, x)`. Proves by a sum-check that the table is right and that it holds
    /// the products. Opens `g` at the challenges of the sum-check. Returns with the proof
    /// a random point and the values of the leaves there, which are left to be verified
    /// by the caller.
    pub fn prove(
        leaves: &[Vec<C::Field>],
        transcript: &mut ProofTranscript,
        setup: &C::Setup,
    ) -> (r: (Self, Vec<C::Field>, Vec<C::Field>))
        requires
            leaves@.len() > 0,
            leaves@[0]@.len() >= 2,
            math::is_pow2(leaves@[0]@.len() as int),
            2 * leaves@[0]@.len() <= usize::MAX,
            forall|i: int|
                0 <= i < leaves@.len() ==> (#[trigger] leaves@[i])@.len() == leaves@[0]@.len(),
            C::supports(*setup, math::log2(leaves@[0]@.len() as int)),
        ensures
            proves(
                field::rows(leaves@),
                math::log2(leaves@[0]@.len() as int),
                *setup,
                old(transcript)@,
                r.0,
                field::values(r.1@),
                field::values(r.2@),
                final(transcript)@,
            ),
            r.1@.len() == math::log2(leaves@[0]@.len() as int),
            field::values(r.2@) == poly::evals_at(
                field::rows(leaves@),
                field::values(r.1@),
                C::Field::modulus(),
            ),
    {
        let v_variables = math::log_2(leaves[0].len());
        let ghost n = v_variables as nat;
        let ghost m = C::Field::modulus();
        let ghost rows = field::rows(leaves@);
        let ghost s0 = transcript@;
        proof {
            C::Field::lemma_modulus();
            math::lemma_pow2_log2(leaves@[0]@.len() as int);
            lemma2_to64();
            if n == 0 {
                assert(pow2(n) == 1);
            }
        }
        let ProverPolys { v_polys, g_polys, mut sumcheck_polys, products } = prover_polys(
            leaves,
            Ghost(n),
        );
        let ghost g = quark_identity::g_tables(rows, m);
        let ghost leaf_polys = sumcheck_polys@;

        transcript.append_scalars("grand product claim", products.as_slice());
        let g_commitment = C::batch_commit_polys(g_polys.as_slice(), setup, BatchType::Big);
        append_commitments(&g_commitment, transcript);
        let ghost s1 = transcript@;

        let tau: Vec<C::Field> = transcript.challenge_vector("element for eval poly", v_variables);
        let ghost taus = field::values(tau@);
        assert(taus.len() == tau@.len() && taus.len() == n);
        let evals = DensePolynomial::new(EqPolynomial::evals(tau.as_slice()));
        sumcheck_polys.push(evals);
        let challenge_sum: Vec<C::Field> = ones_vector(v_variables);
        assert(field::values(challenge_sum@).len() == challenge_sum@.len());
        let eq_sum = DensePolynomial::new(EqPolynomial::evals(challenge_sum.as_slice()));
        sumcheck_polys.push(eq_sum);
        let r_combination: Vec<C::Field> = transcript.challenge_vector(
            "for the random linear comb",
            g_polys.len(),
        );
        let ghost s2 = transcript@;
        let ghost rho = field::values(r_combination@);
        let rlc_claims = combination::combine(products.as_slice(), r_combination.as_slice());
        let comb = QuarkCombination { r_combination };
        let ghost t = quark_identity::sumcheck_tables(rows, taus, m);
        proof {
            math::lemma_log2_pow2(n);
            assert(poly::tables(g_polys@).len() == g_polys@.len());
            assert(rho.len() == rows.len());
            assert(poly::tables(sumcheck_polys@) =~= t) by {
                assert forall|j: int| 0 <= j < t.len() implies sumcheck_polys@[j]@
                    == #[trigger] t[j] by {
                    if j < 3 * rows.len() {
                        assert(sumcheck_polys@[j] == leaf_polys[j]);
                    }
                }
            }
            assert forall|j: int| 0 <= j < sumcheck_polys@.len() implies (
            #[trigger] sumcheck_polys@[j]).has_vars(n) by {
                if j < 3 * rows.len() {
                    assert(sumcheck_polys@[j] == leaf_polys[j]);
                }
            }
            poly::lemma_tables_have_vars(v_polys@, n);
            quark_identity::lemma_quark_total(rows, taus, rho, m);
        }
        let (sumcheck_proof, x, _) = SumcheckInstanceProof::prove_arbitrary(
            &rlc_claims,
            v_variables,
            &mut sumcheck_polys,
            &comb,
            transcript,
        );
        let ghost point = field::values(x@);
        assert(point.len() == x@.len() && x@.len() == n);
        // The values of g at the challenges.
        let openings_r = poly::evaluate_all(g_polys.as_slice(), x.as_slice());
        let proof = C::batch_prove(
            setup,
            g_polys.as_slice(),
            x.as_slice(),
            openings_r.as_slice(),
            BatchType::Big,
            transcript,
        );
        // With r = (r_1, r'), f(r, 0) = r_1 * g(r', 0) + (1 - r_1) * h(r', 0) and
        // f(r, 1) = r_1 * g(r', 1) + (1 - r_1) * h(r', 1): g is opened on the line through
        // (r', 0) and (r', 1), and so are the leaves h, but for a proof.
        let r_prime = tail(&x);
        let claimed_eval_g_r_x = line_reduction::open_and_prove::<C>(
            r_prime.as_slice(),
            true,
            g_polys.as_slice(),
            setup,
            transcript,
        );
        let ((r_t, h_r_t), helper_values) = line_reduction::line_reduce(
            r_prime.as_slice(),
            true,
            v_polys.as_slice(),
            transcript,
        );
        proof {
            reveal(proves);
            assert(field::values(r_t@).len() == r_t@.len());
        }
        (
            QuarkGrandProductProof {
                sumcheck_proof,
                g_commitment,
                claimed_eval_g_r: (openings_r, proof),
                claimed_eval_g_r_x,
                helper_values,
                num_vars: v_variables,
            },
            r_t,
            h_r_t,
        )
    }

    /// Verifies the given grand product proof.
    ///
    /// Gives the claimed values of the leaves, and the point at which they are claimed.
    /// A sum-check without rounds is not accepted. A proof with fewer coefficients or
    /// opened values than it has values of `f(r, 0)` fails the binding.
    pub fn verify(
        &self,
        claims: &[C::Field],
        transcript: &mut ProofTranscript,
        n_rounds: usize,
        setup: &C::Setup,
    ) -> (r: Result<(Vec<C::Field>, Vec<C::Field>), QuarkError>)
        ensures
            (field::answer(r), final(transcript)@) == verdict(
                *self,
                field::values(claims@),
                n_rounds as nat,
                *setup,
                old(transcript)@,
            ),
    {
        // The claimed products and the commitments come first.
        transcript.append_scalars("grand product claim", claims);
        append_commitments(&self.g_commitment, transcript);
        let tau: Vec<C::Field> = transcript.challenge_vector("element for eval poly", n_rounds);
        let r_combination: Vec<C::Field> = transcript.challenge_vector(
            "for the random linear comb",
            self.g_commitment.len(),
        );
        let claim_rlc = combination::combine(claims, r_combination.as_slice());
        if n_rounds == 0 {
            return Err(QuarkError::InvalidQuarkSumcheck);
        }
        let (expected, r) = match self.sumcheck_proof.verify(claim_rlc, n_rounds, transcript) {
            Ok((expected, r)) => (expected, r),
            Err(_) => {
                return Err(QuarkError::InvalidQuarkSumcheck);
            },
        };
        let ghost x = field::values(r@);
        assert(x.len() == r@.len() && x.len() == n_rounds);
        let r_prime = tail(&r);
        // The values g(r).
        match C::batch_verify(
            &self.claimed_eval_g_r.1,
            setup,
            r.as_slice(),
            self.claimed_eval_g_r.0.as_slice(),
            self.g_commitment.as_slice(),
            transcript,
        ) {
            Ok(_) => {},
            Err(_) => {
                return Err(QuarkError::InvalidOpeningProof);
            },
        }
        // The values g(r', 0) and g(r', 1).
        match line_reduction::line_reduce_opening_verify::<C>(
            &self.claimed_eval_g_r_x,
            r_prime.as_slice(),
            true,
            self.g_commitment.as_slice(),
            transcript,
            setup,
        ) {
            Ok(_) => {},
            Err(e) => {
                return Err(e);
            },
        }
        // The values h(r', 0) and h(r', 1) are not opened here: the caller checks the
        // value to which they are reduced.
        let (r_t, h_r_t) = line_reduction::line_reduce_verify(
            &self.helper_values,
            r_prime.as_slice(),
            true,
            transcript,
        );
        assert(field::values(tau@).len() == tau@.len());
        let eq_eval: C::Field = EqPolynomial::evaluate(r.as_slice(), tau.as_slice());
        let challenge_sum: Vec<C::Field> = ones_vector(n_rounds);
        assert(field::values(challenge_sum@).len() == challenge_sum@.len());
        let eq_1_eval: C::Field = EqPolynomial::evaluate(r.as_slice(), challenge_sum.as_slice());
        // f(1, r) = g(r), f(r, 0) = h(r', 0) + r_1 * (g(r', 0) - h(r', 0)), and f(r, 1)
        // likewise.
        let one_r = &self.claimed_eval_g_r.0;
        let r_0 = line_reduction::line_values(
            &self.helper_values.0,
            &self.claimed_eval_g_r_x.0,
            &r[0],
        );
        let r_1 = line_reduction::line_values(
            &self.helper_values.1,
            &self.claimed_eval_g_r_x.1,
            &r[0],
        );
        proof {
            assert(field::values(r_0@).len() == r_0@.len());
            assert(field::values(r_1@).len() == r_1@.len());
            assert(field::values(one_r@).len() == one_r@.len());
            assert(field::values(r_combination@).len() == r_combination@.len());
        }
        if r_0.len() > r_combination.len() || r_0.len() > one_r.len() || r_0.len() > r_1.len() {
            return Err(QuarkError::InvalidBinding);
        }
        let result_from_openings = opened_value(
            &r_combination,
            &eq_eval,
            &eq_1_eval,
            one_r,
            &r_0,
            &r_1,
        );
        if !result_from_openings.equals(&expected) {
            return Err(QuarkError::InvalidBinding);
        }
        Ok((h_r_t, r_t))
    }
}

} // verus!
