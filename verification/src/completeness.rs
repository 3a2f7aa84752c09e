//! The verifier accepts every proof that the prover makes.
use crate::arith;
use crate::combination;
use crate::combination::QuarkRule;
use crate::commitment;
use crate::commitment::{BatchType, CommitmentScheme};
use crate::errors::QuarkError;
use crate::field;
use crate::field::JoltField;
use crate::line_reduction;
use crate::mle;
use crate::poly;
use crate::quark;
use crate::quark::QuarkGrandProductProof;
use crate::quark_identity;
use crate::sumcheck;
use crate::sumcheck::Summand;
use vstd::arithmetic::power2::*;
use vstd::prelude::*;

verus! {

/// From true values of the leaves and of any `g`, the verifier finds the true value of the
/// combination of the quark sum-check at the challenges `x`.
pub proof fn lemma_opened_sum(
    leaves: Seq<Seq<int>>,
    g: Seq<Seq<int>>,
    tau: Seq<int>,
    rho: Seq<int>,
    x: Seq<int>,
    m: int,
)
    requires
        m > 1,
        x.len() > 0,
        x.len() == tau.len(),
        rho.len() == leaves.len(),
        g.len() == leaves.len(),
        poly::tables_have_vars(leaves, x.len()),
        poly::tables_have_vars(g, x.len()),
    ensures
        ({
            let p0 = x.drop_first().push(0);
            let p1 = x.drop_first().push(1);
            let r_0 = line_reduction::line_claims(
                poly::evals_at(leaves, p0, m),
                poly::evals_at(g, p0, m),
                x[0],
                m,
            );
            let r_1 = line_reduction::line_claims(
                poly::evals_at(leaves, p1, m),
                poly::evals_at(g, p1, m),
                x[0],
                m,
            );
            let one_r = poly::evals_at(g, x, m);
            &&& quark::openings_match(rho, one_r, r_0, r_1)
            &&& quark::opened_sum(
                rho,
                mle::eq_at(x, tau) % m,
                mle::eq_at(x, mle::ones(tau.len())) % m,
                one_r,
                r_0,
                r_1,
            ) == (QuarkRule { rho }).value(
                poly::evals_at(quark_identity::joined_tables(leaves, g, tau, m), x, m),
            )
        }),
{
    let t = quark_identity::joined_tables(leaves, g, tau, m);
    let v = poly::evals_at(t, x, m);
    let l = leaves.len() as int;
    let p0 = x.drop_first().push(0);
    let p1 = x.drop_first().push(1);
    let h_0 = poly::evals_at(leaves, p0, m);
    let h_1 = poly::evals_at(leaves, p1, m);
    let g_0 = poly::evals_at(g, p0, m);
    let g_1 = poly::evals_at(g, p1, m);
    let r_0 = line_reduction::line_claims(h_0, g_0, x[0], m);
    let r_1 = line_reduction::line_claims(h_1, g_1, x[0], m);
    let one_r = poly::evals_at(g, x, m);
    let eq = mle::eq_at(x, tau) % m;
    let one = mle::eq_at(x, mle::ones(tau.len())) % m;
    let f = |i: int| combination::quark_term(rho[i], eq, one, one_r[i], r_0[i], r_1[i]);
    let k = |i: int|
        combination::quark_term(
            rho[i],
            v[3 * l],
            v[3 * l + 1],
            v[3 * i],
            v[3 * i + 1],
            v[3 * i + 2],
        );
    assert forall|i: int| 0 <= i < l implies #[trigger] f(i) == k(i) by {
        quark_identity::lemma_joined_tables(leaves, g, tau, i, m);
        assert(leaves[i].len() == pow2(x.len()));
        assert(g[i].len() == pow2(x.len()));
        quark_identity::lemma_joined_values(leaves[i], g[i], x, m);
        lemma_eq_value(x, tau, m);
        lemma_eq_value(x, mle::ones(tau.len()), m);
        assert(v[3 * i] == one_r[i]);
        assert(v[3 * i + 1] == r_0[i]);
        assert(v[3 * i + 2] == r_1[i]);
        assert(v[3 * l] == eq);
        assert(v[3 * l + 1] == one);
    }
    arith::lemma_sum_ext(leaves.len(), f, k);
    assert(r_0.len() == l);
    assert(quark::opened_sum(rho, eq, one, one_r, r_0, r_1) == arith::sum(leaves.len(), f));
    assert((QuarkRule { rho }).value(v) == arith::sum(leaves.len(), k));
}

/// The polynomial with the values of the basis at `y` is `eq(x, y)`.
proof fn lemma_eq_value(x: Seq<int>, y: Seq<int>, m: int)
    requires
        m > 0,
        x.len() == y.len(),
    ensures
        mle::eval(arith::reduced(mle::chis(y), m), x) % m == mle::eq_at(x, y) % m,
{
    mle::lemma_chis_len(y);
    arith::lemma_reduced_cong(mle::chis(y), m);
    mle::lemma_eval_cong(arith::reduced(mle::chis(y), m), mle::chis(y), x, x, m);
    mle::lemma_eval_chis(y, x);
}

/// A quark proof is accepted if the prover made it.
///
/// The verifier hands on the same point and the same values of the leaves as the prover,
/// and leaves the transcript in the same state.
pub proof fn lemma_quark_completeness<C: CommitmentScheme>(
    leaves: Seq<Seq<int>>,
    n: nat,
    setup: C::Setup,
    state: Seq<u8>,
    proof: QuarkGrandProductProof<C>,
    point: Seq<int>,
    claims: Seq<int>,
    end: Seq<u8>,
)
    requires
        commitment::accepts_own_openings::<C>(),
        C::supports(setup, n),
        n > 0,
        poly::tables_have_vars(leaves, n),
        quark::proves(leaves, n, setup, state, proof, point, claims, end),
    ensures
        quark::verdict(
            proof,
            quark_identity::products(leaves, C::Field::modulus()),
            n,
            setup,
            state,
        ) == (Ok::<(Seq<int>, Seq<int>), QuarkError>((claims, point)), end),
        claims == poly::evals_at(leaves, point, C::Field::modulus()),
        point.len() == n,
        proof.num_vars == n,
{
    reveal(quark::proves);
    C::Field::lemma_modulus();
    let m = C::Field::modulus();
    let g = quark_identity::g_tables(leaves, m);
    let s1 = quark::committed_state::<C>(
        state,
        quark_identity::products(leaves, m),
        proof.g_commitment@,
    );
    let tau = quark::drawn_tau::<C::Field>(s1, n);
    let rho = quark::drawn_rho::<C::Field>(s1, n, leaves.len());
    let s2 = quark::drawn_state(s1, n, leaves.len());
    let msgs = proof.sumcheck_proof@;
    let x = sumcheck::round_challenges::<C::Field>(s2, msgs);
    let s3 = sumcheck::rounds_state::<C::Field>(s2, msgs);
    let r_prime = x.drop_first();
    assert(x.len() == n && r_prime.len() + 1 == n);
    quark_identity::lemma_sumcheck_tables_vars(leaves, tau, m);
    lemma_sumcheck_accepted(leaves, tau, rho, msgs, x, m);
    // The openings are accepted.
    let big = BatchType::Big;
    let p1 = proof.claimed_eval_g_r.1;
    lemma_opening_accepted::<C>(setup, g, x, proof.g_commitment@, s3, p1);
    let s4 = C::after_prove(setup, g, x, poly::evals_at(g, x, m), big, s3, p1);
    let g_0 = poly::evals_at(g, r_prime.push(0), m);
    let g_1 = poly::evals_at(g, r_prime.push(1), m);
    let t = line_reduction::line_challenge::<C::Field>(s4, g_0, g_1);
    let s5 = line_reduction::after_line::<C::Field>(s4, g_0, g_1);
    let p2 = proof.claimed_eval_g_r_x.2;
    lemma_opening_accepted::<C>(setup, g, r_prime.push(t), proof.g_commitment@, s5, p2);
    line_reduction::lemma_line_reduction::<C::Field>(g, r_prime, true, t);
    // The values of the leaves are reduced as the prover did it.
    line_reduction::lemma_line_reduction::<C::Field>(leaves, r_prime, true, point.last());
}

/// An opening proof is accepted if the prover made it.
proof fn lemma_opening_accepted<C: CommitmentScheme>(
    setup: C::Setup,
    g: Seq<Seq<int>>,
    point: Seq<int>,
    commitments: Seq<C::Commitment>,
    state: Seq<u8>,
    proof: C::BatchedProof,
)
    requires
        commitment::accepts_own_openings::<C>(),
        C::supports(setup, point.len()),
        poly::tables_have_vars(g, point.len()),
        commitments.len() == g.len(),
        C::commits(g, setup, BatchType::Big, commitments),
        C::opens(
            setup,
            g,
            point,
            poly::evals_at(g, point, C::Field::modulus()),
            BatchType::Big,
            state,
            proof,
        ),
    ensures
        ({
            let v = poly::evals_at(g, point, C::Field::modulus());
            &&& C::accepts(proof, setup, point, v, commitments, state)
            &&& C::after_verify(proof, setup, point, v, commitments, state) == C::after_prove(
                setup,
                g,
                point,
                v,
                BatchType::Big,
                state,
                proof,
            )
        }),
{
}

/// An honest quark sum-check is accepted, and the opened values match its result.
proof fn lemma_sumcheck_accepted(
    leaves: Seq<Seq<int>>,
    tau: Seq<int>,
    rho: Seq<int>,
    msgs: Seq<Seq<int>>,
    x: Seq<int>,
    m: int,
)
    requires
        m > 1,
        tau.len() > 0,
        rho.len() == leaves.len(),
        poly::tables_have_vars(leaves, tau.len()),
        sumcheck::honest(
            (QuarkRule { rho }),
            quark_identity::sumcheck_tables(leaves, tau, m),
            tau.len(),
            msgs,
            x,
            m,
        ),
    ensures
        ({
            let g = quark_identity::g_tables(leaves, m);
            let p0 = x.drop_first().push(0);
            let p1 = x.drop_first().push(1);
            let r_0 = line_reduction::line_claims(
                poly::evals_at(leaves, p0, m),
                poly::evals_at(g, p0, m),
                x[0],
                m,
            );
            let r_1 = line_reduction::line_claims(
                poly::evals_at(leaves, p1, m),
                poly::evals_at(g, p1, m),
                x[0],
                m,
            );
            let one_r = poly::evals_at(g, x, m);
            &&& sumcheck::well_shaped(msgs, tau.len())
            &&& quark::openings_match(rho, one_r, r_0, r_1)
            &&& quark::opened_sum(
                rho,
                mle::eq_at(x, tau) % m,
                mle::eq_at(x, mle::ones(tau.len())) % m,
                one_r,
                r_0,
                r_1,
            ) % m == sumcheck::running_claim(
                combination::combined(quark_identity::products(leaves, m), rho) % m,
                msgs,
                x,
                m,
            )
        }),
{
    let products = quark_identity::products(leaves, m);
    let rule = QuarkRule { rho };
    let n = tau.len();
    let t = quark_identity::sumcheck_tables(leaves, tau, m);
    let claim = combination::combined(products, rho) % m;
    let expected = sumcheck::running_claim(claim, msgs, x, m);
    assert forall|j: int| 0 <= j < n implies (#[trigger] msgs[j]).len() == 3 by {}
    quark_identity::lemma_sumcheck_tables_vars(leaves, tau, m);
    quark_identity::lemma_quark_total(leaves, tau, rho, m);
    arith::lemma_reduce(combination::combined(products, rho), m);
    sumcheck::lemma_honest_rounds(rule, t, n, msgs, x, claim, m);
    quark_identity::lemma_honest_tables(leaves, tau, m);
    lemma_opened_sum(leaves, quark_identity::g_tables(leaves, m), tau, rho, x, m);
    arith::lemma_reduce(
        sumcheck::next_claim(
            msgs.last(),
            sumcheck::running_claim(claim, msgs.drop_last(), x.drop_last(), m),
            x.last(),
        ),
        m,
    );
    arith::lemma_reduced_fixed(expected, m);
}

} // verus!
