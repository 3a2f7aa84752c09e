//! What an accepted proof shows.
//!
//! The laws here say that an accepted proof with true values makes the claims true, but for
//! a lucky round of its sum-check. In a lucky round a challenge is a point at which two
//! different polynomials of degree three meet; a field has few of these.
use crate::arith;
use crate::combination;
use crate::combination::{LayerRule, QuarkRule};
use crate::commitment;
use crate::commitment::CommitmentScheme;
use crate::completeness;
use crate::errors::{GrandProductError, QuarkError};
use crate::field;
use crate::field::JoltField;
use crate::grand_product;
use crate::grand_product::BatchedGrandProductProof;
use crate::layer;
use crate::layer::BatchedGrandProductLayerProof;
use crate::line_reduction;
use crate::mle;
use crate::poly;
use crate::quark;
use crate::quark::QuarkGrandProductProof;
use crate::quark_identity;
use crate::sumcheck;
use crate::sumcheck::Summand;
use crate::transcript;
use vstd::prelude::*;

verus! {

/// The challenges of the sum-check of a quark proof.
pub open spec fn quark_challenges<C: CommitmentScheme>(
    proof: QuarkGrandProductProof<C>,
    claims: Seq<int>,
    n: nat,
    state: Seq<u8>,
) -> Seq<int> {
    let s1 = quark::committed_state::<C>(state, claims, proof.g_commitment@);
    sumcheck::round_challenges::<C::Field>(
        quark::drawn_state(s1, n, proof.g_commitment@.len()),
        proof.sumcheck_proof@,
    )
}

/// The values in a quark proof begin with those of the leaves and of `g` at the points that
/// belong to the challenges `x`.
pub open spec fn has_true_values<C: CommitmentScheme>(
    proof: QuarkGrandProductProof<C>,
    x: Seq<int>,
    leaves: Seq<Seq<int>>,
    g: Seq<Seq<int>>,
) -> bool {
    let m = C::Field::modulus();
    let p0 = x.drop_first().push(0);
    let p1 = x.drop_first().push(1);
    &&& begins_with(field::values(proof.claimed_eval_g_r.0@), poly::evals_at(g, x, m))
    &&& begins_with(field::values(proof.claimed_eval_g_r_x.0@), poly::evals_at(g, p0, m))
    &&& begins_with(field::values(proof.claimed_eval_g_r_x.1@), poly::evals_at(g, p1, m))
    &&& begins_with(field::values(proof.helper_values.0@), poly::evals_at(leaves, p0, m))
    &&& begins_with(field::values(proof.helper_values.1@), poly::evals_at(leaves, p1, m))
}

/// The first entries of `a` are those of `b`.
pub open spec fn begins_with(a: Seq<int>, b: Seq<int>) -> bool {
    b.len() <= a.len() && a.take(b.len() as int) == b
}

/// Values beyond those of the grand products do not enter the sum of the verifier.
proof fn lemma_same_sum<C: CommitmentScheme>(
    proof: QuarkGrandProductProof<C>,
    rho: Seq<int>,
    tau: Seq<int>,
    x: Seq<int>,
    leaves: Seq<Seq<int>>,
    g: Seq<Seq<int>>,
)
    requires
        rho.len() == leaves.len(),
        g.len() == leaves.len(),
        has_true_values(proof, x, leaves, g),
        ({
            let m = C::Field::modulus();
            let g_0 = field::values(proof.claimed_eval_g_r_x.0@);
            let h_0 = field::values(proof.helper_values.0@);
            line_reduction::line_claims(h_0, g_0, x[0], m).len() <= rho.len()
        }),
    ensures
        ({
            let m = C::Field::modulus();
            let p0 = x.drop_first().push(0);
            let p1 = x.drop_first().push(1);
            let eq = mle::eq_at(x, tau) % m;
            let one = mle::eq_at(x, mle::ones(tau.len())) % m;
            quark::opened_sum(
                rho,
                eq,
                one,
                field::values(proof.claimed_eval_g_r.0@),
                line_reduction::line_claims(
                    field::values(proof.helper_values.0@),
                    field::values(proof.claimed_eval_g_r_x.0@),
                    x[0],
                    m,
                ),
                line_reduction::line_claims(
                    field::values(proof.helper_values.1@),
                    field::values(proof.claimed_eval_g_r_x.1@),
                    x[0],
                    m,
                ),
            ) == quark::opened_sum(
                rho,
                eq,
                one,
                poly::evals_at(g, x, m),
                line_reduction::line_claims(
                    poly::evals_at(leaves, p0, m),
                    poly::evals_at(g, p0, m),
                    x[0],
                    m,
                ),
                line_reduction::line_claims(
                    poly::evals_at(leaves, p1, m),
                    poly::evals_at(g, p1, m),
                    x[0],
                    m,
                ),
            )
        }),
{
    let m = C::Field::modulus();
    let l = leaves.len();
    let p0 = x.drop_first().push(0);
    let p1 = x.drop_first().push(1);
    let eq = mle::eq_at(x, tau) % m;
    let one = mle::eq_at(x, mle::ones(tau.len())) % m;
    let o1 = field::values(proof.claimed_eval_g_r.0@);
    let (g_0, g_1) = (
        field::values(proof.claimed_eval_g_r_x.0@),
        field::values(proof.claimed_eval_g_r_x.1@),
    );
    let (h_0, h_1) = (
        field::values(proof.helper_values.0@),
        field::values(proof.helper_values.1@),
    );
    let a0 = line_reduction::line_claims(h_0, g_0, x[0], m);
    let a1 = line_reduction::line_claims(h_1, g_1, x[0], m);
    let o2 = poly::evals_at(g, x, m);
    let (vg_0, vg_1) = (poly::evals_at(g, p0, m), poly::evals_at(g, p1, m));
    let (vh_0, vh_1) = (poly::evals_at(leaves, p0, m), poly::evals_at(leaves, p1, m));
    let b0 = line_reduction::line_claims(vh_0, vg_0, x[0], m);
    let b1 = line_reduction::line_claims(vh_1, vg_1, x[0], m);
    let f = |i: int| combination::quark_term(rho[i], eq, one, o1[i], a0[i], a1[i]);
    let k = |i: int| combination::quark_term(rho[i], eq, one, o2[i], b0[i], b1[i]);
    assert(a0.len() == l && b0.len() == l);
    assert forall|i: int| 0 <= i < l implies #[trigger] f(i) == k(i) by {
        assert(o1.take(l as int)[i] == o2[i]);
        assert(g_0.take(l as int)[i] == vg_0[i]);
        assert(g_1.take(l as int)[i] == vg_1[i]);
        assert(h_0.take(l as int)[i] == vh_0[i]);
        assert(h_1.take(l as int)[i] == vh_1[i]);
    }
    arith::lemma_sum_ext(l, f, k);
}

/// If a quark proof with true values of the leaves and of any `g` is accepted, then the
/// claims combine to the sum of the quark sum-check for the leaves and `g`, or there was a
/// lucky round.
pub proof fn lemma_quark_soundness<C: CommitmentScheme>(
    proof: QuarkGrandProductProof<C>,
    claims: Seq<int>,
    n: nat,
    setup: C::Setup,
    state: Seq<u8>,
    leaves: Seq<Seq<int>>,
    g: Seq<Seq<int>>,
)
    requires
        quark::verdict(proof, claims, n, setup, state).0 is Ok,
        leaves.len() == proof.g_commitment@.len(),
        g.len() == leaves.len(),
        poly::tables_have_vars(leaves, n),
        poly::tables_have_vars(g, n),
        has_true_values(proof, quark_challenges(proof, claims, n, state), leaves, g),
    ensures
        ({
            let m = C::Field::modulus();
            let s1 = quark::committed_state::<C>(state, claims, proof.g_commitment@);
            let tau = quark::drawn_tau::<C::Field>(s1, n);
            let rho = quark::drawn_rho::<C::Field>(s1, n, leaves.len());
            let t = quark_identity::joined_tables(leaves, g, tau, m);
            let claim = combination::combined(claims, rho);
            let x = quark_challenges(proof, claims, n, state);
            ||| arith::cong(claim, sumcheck::total((QuarkRule { rho }), t, n), m)
            ||| sumcheck::was_lucky(
                (QuarkRule { rho }),
                t,
                n,
                proof.sumcheck_proof@,
                x,
                claim % m,
                m,
            )
        }),
{
    C::Field::lemma_modulus();
    let m = C::Field::modulus();
    let s1 = quark::committed_state::<C>(state, claims, proof.g_commitment@);
    let tau = quark::drawn_tau::<C::Field>(s1, n);
    let rho = quark::drawn_rho::<C::Field>(s1, n, leaves.len());
    let t = quark_identity::joined_tables(leaves, g, tau, m);
    let claim = combination::combined(claims, rho);
    let x = quark_challenges(proof, claims, n, state);
    let msgs = proof.sumcheck_proof@;
    let rule = QuarkRule { rho };
    quark_identity::lemma_joined_tables_vars(leaves, g, tau, m);
    completeness::lemma_opened_sum(leaves, g, tau, rho, x, m);
    lemma_same_sum(proof, rho, tau, x, leaves, g);
    arith::lemma_reduce(rule.value(poly::evals_at(t, x, m)), m);
    sumcheck::lemma_sumcheck_soundness(rule, t, n, msgs, x, claim % m, m);
    arith::lemma_reduce(claim, m);
}

/// If such a proof is accepted and `g` holds the partial products of the leaves, then the
/// claims combine to the same value as the products of the leaves, or there was a lucky
/// round.
pub proof fn lemma_quark_products<C: CommitmentScheme>(
    proof: QuarkGrandProductProof<C>,
    claims: Seq<int>,
    n: nat,
    setup: C::Setup,
    state: Seq<u8>,
    leaves: Seq<Seq<int>>,
)
    requires
        quark::verdict(proof, claims, n, setup, state).0 is Ok,
        leaves.len() == proof.g_commitment@.len(),
        poly::tables_have_vars(leaves, n),
        has_true_values(
            proof,
            quark_challenges(proof, claims, n, state),
            leaves,
            quark_identity::g_tables(leaves, C::Field::modulus()),
        ),
    ensures
        ({
            let m = C::Field::modulus();
            let s1 = quark::committed_state::<C>(state, claims, proof.g_commitment@);
            let tau = quark::drawn_tau::<C::Field>(s1, n);
            let rho = quark::drawn_rho::<C::Field>(s1, n, leaves.len());
            let claim = combination::combined(claims, rho);
            let x = quark_challenges(proof, claims, n, state);
            ||| arith::cong(
                claim,
                combination::combined(quark_identity::products(leaves, m), rho),
                m,
            )
            ||| sumcheck::was_lucky(
                (QuarkRule { rho }),
                quark_identity::sumcheck_tables(leaves, tau, m),
                n,
                proof.sumcheck_proof@,
                x,
                claim % m,
                m,
            )
        }),
{
    C::Field::lemma_modulus();
    let m = C::Field::modulus();
    let g = quark_identity::g_tables(leaves, m);
    let s1 = quark::committed_state::<C>(state, claims, proof.g_commitment@);
    let tau = quark::drawn_tau::<C::Field>(s1, n);
    let rho = quark::drawn_rho::<C::Field>(s1, n, leaves.len());
    quark_identity::lemma_sumcheck_tables_vars(leaves, tau, m);
    quark_identity::lemma_honest_tables(leaves, tau, m);
    quark_identity::lemma_quark_total(leaves, tau, rho, m);
    lemma_quark_soundness(proof, claims, n, setup, state, leaves, g);
}

/// For some of the polynomials with the values `v0` and `v1` at both ends of a line, other
/// values are claimed, but they are reduced to the true value at `t`.
pub open spec fn some_lucky_line(
    a: Seq<int>,
    b: Seq<int>,
    v0: Seq<int>,
    v1: Seq<int>,
    t: int,
    m: int,
) -> bool {
    exists|i: int|
        0 <= i < v0.len() && #[trigger] line_reduction::lucky_line(
            a[i],
            b[i],
            v0[i],
            v1[i],
            t,
            m,
        )
}

/// Claims at both ends of lines that are reduced to the true values are true, unless a line
/// was lucky.
pub proof fn lemma_reduced_claims<F: JoltField>(
    a: Seq<int>,
    b: Seq<int>,
    table: Seq<Seq<int>>,
    r: Seq<int>,
    t: int,
)
    requires
        field::canonical::<F>(a),
        field::canonical::<F>(b),
        poly::tables_have_vars(table, r.len() + 1),
        line_reduction::line_claims(a, b, t, F::modulus()) == poly::evals_at(
            table,
            r.push(t),
            F::modulus(),
        ),
    ensures
        ({
            let v0 = poly::evals_at(table, r.push(0), F::modulus());
            let v1 = poly::evals_at(table, r.push(1), F::modulus());
            &&& table.len() <= a.len() && table.len() <= b.len()
            &&& some_lucky_line(a, b, v0, v1, t, F::modulus()) || (a.take(table.len() as int) == v0
                && b.take(table.len() as int) == v1)
        }),
{
    F::lemma_modulus();
    let m = F::modulus();
    let v0 = poly::evals_at(table, r.push(0), m);
    let v1 = poly::evals_at(table, r.push(1), m);
    let l = table.len() as int;
    line_reduction::lemma_line_reduction::<F>(table, r, true, t);
    let left = line_reduction::line_claims(a, b, t, m);
    let right = line_reduction::line_claims(v0, v1, t, m);
    assert(left == right);
    assert(left.len() == l);
    if !some_lucky_line(a, b, v0, v1, t, m) {
        assert forall|i: int| 0 <= i < l implies a[i] == v0[i] && b[i] == v1[i] by {
            assert(left[i] == right[i]);
            assert(!line_reduction::lucky_line(a[i], b[i], v0[i], v1[i], t, m));
            arith::lemma_reduce(mle::eval(table[i], r.push(0)), m);
            arith::lemma_reduce(mle::eval(table[i], r.push(1)), m);
            arith::lemma_reduced_fixed(a[i], m);
            arith::lemma_reduced_fixed(b[i], m);
            arith::lemma_reduced_fixed(v0[i], m);
            arith::lemma_reduced_fixed(v1[i], m);
        }
        assert(a.take(l) =~= v0);
        assert(b.take(l) =~= v1);
    }
}

/// If a quark proof is accepted, the commitment scheme opens true values only, and the values
/// of the leaves that are handed on are true, then the claims are what the leaves and the
/// committed `g` add to the sum: the entry `f(1, ..., 1, 0)`, and the failures of `g` to hold
/// the products, weighted by `eq(tau, x)`. Or else one of the challenges was lucky.
///
/// The point `tau` and the coefficients are drawn after the claims and the commitments, and
/// the coordinates of the lines after the values at both ends.
pub proof fn lemma_accepted_quark<C: CommitmentScheme>(
    proof: QuarkGrandProductProof<C>,
    claims: Seq<int>,
    n: nat,
    setup: C::Setup,
    state: Seq<u8>,
    leaves: Seq<Seq<int>>,
    point: Seq<int>,
    table: spec_fn(C::Commitment) -> Seq<int>,
)
    requires
        commitment::opens_only_true_values::<C>(setup, table),
        quark::verdict(proof, claims, n, setup, state).0 == Ok::<(Seq<int>, Seq<int>), QuarkError>(
            (poly::evals_at(leaves, point, C::Field::modulus()), point),
        ),
        leaves.len() == claims.len(),
        leaves.len() == proof.g_commitment@.len(),
        poly::tables_have_vars(leaves, n),
        poly::tables_have_vars(commitment::committed_tables::<C>(table, proof.g_commitment@), n),
    ensures
        ({
            let m = C::Field::modulus();
            let cs = proof.g_commitment@;
            let l = leaves.len();
            let msgs = proof.sumcheck_proof@;
            let g = commitment::committed_tables::<C>(table, cs);
            let s0 = transcript::absorb_scalars::<C::Field>(state, "grand product claim"@, claims);
            let s1 = quark::absorb_commitments(s0, cs);
            let st = transcript::squeeze_many(s1, "element for eval poly"@, n);
            let s2 = transcript::squeeze_many(st, "for the random linear comb"@, l);
            let tau = transcript::challenges::<C::Field>(s1, "element for eval poly"@, n);
            let rho = transcript::challenges::<C::Field>(st, "for the random linear comb"@, l);
            let x = sumcheck::round_challenges::<C::Field>(s2, msgs);
            let s3 = sumcheck::rounds_state::<C::Field>(s2, msgs);
            let g_0 = field::values(proof.claimed_eval_g_r_x.0@);
            let g_1 = field::values(proof.claimed_eval_g_r_x.1@);
            let h_0 = field::values(proof.helper_values.0@);
            let h_1 = field::values(proof.helper_values.1@);
            let one_r = poly::evals_at(g, x, m);
            let s4 = C::after_verify(proof.claimed_eval_g_r.1, setup, x, one_r, cs, s3);
            let t = C::Field::decoding(
                transcript::squeeze(
                    transcript::absorb_scalars::<C::Field>(
                        transcript::absorb_scalars::<C::Field>(
                            s4,
                            "claims for line reduction 0"@,
                            g_0,
                        ),
                        "claims for line reduction 1"@,
                        g_1,
                    ),
                    "loading r_star"@,
                ),
            );
            let p0 = x.drop_first().push(0);
            let p1 = x.drop_first().push(1);
            let claim = arith::sum(l, |i: int| claims[i] * rho[i]);
            ||| arith::cong(
                claim,
                arith::sum(
                    l,
                    |i: int| rho[i] * quark_identity::checked_product(leaves[i], g[i], tau),
                ),
                m,
            )
            ||| sumcheck::was_lucky(
                (QuarkRule { rho }),
                quark_identity::joined_tables(leaves, g, tau, m),
                n,
                msgs,
                x,
                claim % m,
                m,
            )
            ||| some_lucky_line(
                g_0,
                g_1,
                poly::evals_at(g, p0, m),
                poly::evals_at(g, p1, m),
                t,
                m,
            )
            ||| some_lucky_line(
                h_0,
                h_1,
                poly::evals_at(leaves, p0, m),
                poly::evals_at(leaves, p1, m),
                point.last(),
                m,
            )
        }),
{
    C::Field::lemma_modulus();
    let m = C::Field::modulus();
    let cs = proof.g_commitment@;
    let l = leaves.len();
    let msgs = proof.sumcheck_proof@;
    let g = commitment::committed_tables::<C>(table, cs);
    let s1 = quark::committed_state::<C>(state, claims, cs);
    let tau = quark::drawn_tau::<C::Field>(s1, n);
    let rho = quark::drawn_rho::<C::Field>(s1, n, l);
    let s2 = quark::drawn_state(s1, n, l);
    let x = sumcheck::round_challenges::<C::Field>(s2, msgs);
    let s3 = sumcheck::rounds_state::<C::Field>(s2, msgs);
    let rp = x.drop_first();
    assert(x.len() == n && rp.len() + 1 == n);
    let g_0 = field::values(proof.claimed_eval_g_r_x.0@);
    let g_1 = field::values(proof.claimed_eval_g_r_x.1@);
    let h_0 = field::values(proof.helper_values.0@);
    let h_1 = field::values(proof.helper_values.1@);
    let one_r = field::values(proof.claimed_eval_g_r.0@);
    field::lemma_values_canonical(proof.claimed_eval_g_r_x.0@);
    field::lemma_values_canonical(proof.claimed_eval_g_r_x.1@);
    field::lemma_values_canonical(proof.helper_values.0@);
    field::lemma_values_canonical(proof.helper_values.1@);
    // The openings are true.
    assert(C::accepts(proof.claimed_eval_g_r.1, setup, x, one_r, cs, s3));
    assert(one_r == poly::evals_at(g, x, m));
    let s4 = C::after_verify(proof.claimed_eval_g_r.1, setup, x, one_r, cs, s3);
    let t = line_reduction::line_challenge::<C::Field>(s4, g_0, g_1);
    let g_t = line_reduction::line_claims(g_0, g_1, t, m);
    let s5 = line_reduction::after_line::<C::Field>(s4, g_0, g_1);
    assert(C::accepts(proof.claimed_eval_g_r_x.2, setup, rp.push(t), g_t, cs, s5));
    let u = point.last();
    assert(point == rp.push(u));
    lemma_reduced_claims::<C::Field>(g_0, g_1, g, rp, t);
    lemma_reduced_claims::<C::Field>(h_0, h_1, leaves, rp, u);
    let (p0, p1) = (rp.push(0), rp.push(1));
    let claim = combination::combined(claims, rho);
    if g_0.take(l as int) == poly::evals_at(g, p0, m) && g_1.take(l as int) == poly::evals_at(
        g,
        p1,
        m,
    ) && h_0.take(l as int) == poly::evals_at(leaves, p0, m) && h_1.take(l as int)
        == poly::evals_at(leaves, p1, m) {
        assert(one_r.take(one_r.len() as int) =~= one_r);
        assert(has_true_values(proof, x, leaves, g));
        lemma_quark_soundness(proof, claims, n, setup, state, leaves, g);
        quark_identity::lemma_joined_total(leaves, g, tau, rho, m);
    }
}

/// If a proof of a layer with true values of both factors is accepted, then the claims
/// combine to the same value as the values of the layer above, or there was a lucky round.
pub proof fn lemma_layer_soundness<F: JoltField>(
    proof: BatchedGrandProductLayerProof<F>,
    rows: Seq<Seq<int>>,
    claims: Seq<int>,
    r: Seq<int>,
    state: Seq<u8>,
)
    requires
        proof.verdict(claims, r, state).0 is Ok,
        claims.len() == rows.len(),
        poly::tables_have_vars(rows, r.len() + 1),
        field::values(proof.left_claims@) == poly::evals_at(
            layer::left_tables(rows),
            proof.challenges(state, rows.len()),
            F::modulus(),
        ),
        field::values(proof.right_claims@) == poly::evals_at(
            layer::right_tables(rows),
            proof.challenges(state, rows.len()),
            F::modulus(),
        ),
    ensures
        ({
            let m = F::modulus();
            let rho = layer::layer_rho::<F>(state, rows.len());
            let claim = combination::combined(claims, rho);
            ||| arith::cong(
                claim,
                combination::combined(
                    poly::evals_at(layer::next_layer(rows, m), r, m),
                    rho,
                ),
                m,
            )
            ||| sumcheck::was_lucky(
                (LayerRule { rho }),
                layer::layer_tables(rows, r, m),
                r.len(),
                proof.proof@,
                proof.challenges(state, rows.len()),
                claim % m,
                m,
            )
        }),
{
    F::lemma_modulus();
    let m = F::modulus();
    let l = rows.len();
    let rho = layer::layer_rho::<F>(state, l);
    let x = proof.challenges(state, l);
    let t = layer::layer_tables(rows, r, m);
    let rule = LayerRule { rho };
    let claim = combination::combined(claims, rho);
    layer::lemma_layer_tables_vars(rows, r, m);
    layer::lemma_factors_sum(rows, r, rho, x, m);
    layer::lemma_layer_total(rows, r, rho, m);
    arith::lemma_reduce(rule.value(poly::evals_at(t, x, m)), m);
    sumcheck::lemma_sumcheck_soundness(rule, t, r.len(), proof.proof@, x, claim % m, m);
    arith::lemma_reduce(claim, m);
}

/// If a proof of a layer is accepted and the values of the layer that are handed on are true,
/// then each claim is the value of the layer above. Or else one of the challenges was lucky:
/// one of the sum-check, the coordinate that reduces the claims on both factors, or the
/// coefficients, of which one is drawn for each claim.
pub proof fn lemma_accepted_layer<F: JoltField>(
    proof: BatchedGrandProductLayerProof<F>,
    rows: Seq<Seq<int>>,
    claims: Seq<int>,
    r: Seq<int>,
    state: Seq<u8>,
    point: Seq<int>,
)
    requires
        proof.verdict(claims, r, state).0 == Ok::<(Seq<int>, Seq<int>), GrandProductError>(
            (poly::evals_at(rows, point, F::modulus()), point),
        ),
        claims.len() == rows.len(),
        poly::tables_have_vars(rows, r.len() + 1),
    ensures
        ({
            let m = F::modulus();
            let l = rows.len();
            let above = layer::next_layer(rows, m);
            let truth = poly::evals_at(above, r, m);
            let rho = transcript::challenges::<F>(state, "rand_coeffs_next_layer"@, l);
            let s1 = transcript::squeeze_many(state, "rand_coeffs_next_layer"@, l);
            let x = sumcheck::round_challenges::<F>(s1, proof.proof@);
            let claim = arith::sum(l, |i: int| claims[i] * rho[i]);
            ||| forall|i: int|
                0 <= i < l ==> arith::cong(#[trigger] claims[i], mle::eval(above[i], r), m)
            ||| combination::lucky_coefficients(claims, truth, rho, m)
            ||| sumcheck::was_lucky(
                (LayerRule { rho }),
                layer::layer_tables(rows, r, m),
                r.len(),
                proof.proof@,
                x,
                claim % m,
                m,
            )
            ||| some_lucky_line(
                field::values(proof.left_claims@),
                field::values(proof.right_claims@),
                poly::evals_at(rows, x.push(0), m),
                poly::evals_at(rows, x.push(1), m),
                point.last(),
                m,
            )
        }),
{
    F::lemma_modulus();
    let m = F::modulus();
    let l = rows.len();
    let above = layer::next_layer(rows, m);
    let truth = poly::evals_at(above, r, m);
    let rho = layer::layer_rho::<F>(state, l);
    let x = proof.challenges(state, l);
    let t = proof.r_layer(state, l);
    let left = field::values(proof.left_claims@);
    let right = field::values(proof.right_claims@);
    field::lemma_values_canonical(proof.left_claims@);
    field::lemma_values_canonical(proof.right_claims@);
    assert(point == x.push(t));
    assert(x.len() == r.len());
    lemma_reduced_claims::<F>(left, right, rows, x, t);
    let v0 = poly::evals_at(rows, x.push(0), m);
    let v1 = poly::evals_at(rows, x.push(1), m);
    if left.take(l as int) == v0 && right.take(l as int) == v1 {
        assert(left.take(l as int) =~= left);
        assert(right.take(l as int) =~= right);
        layer::lemma_factor_values(rows, x, m);
        lemma_layer_soundness(proof, rows, claims, r, state);
        let f = |i: int| claims[i] * rho[i];
        let g = |i: int| truth[i] * rho[i];
        layer::lemma_layer_tables_vars(rows, r, m);
        assert(above.len() == l);
        if arith::cong(arith::sum(l, f), arith::sum(l, g), m) {
            if !combination::lucky_coefficients(claims, truth, rho, m) {
                assert forall|i: int| 0 <= i < l implies arith::cong(
                    #[trigger] claims[i],
                    mle::eval(above[i], r),
                    m,
                ) by {
                    assert(arith::cong(claims[i], truth[i], m));
                    arith::lemma_reduce(mle::eval(above[i], r), m);
                }
            }
        }
    }
}

/// One of the challenges of an accepted proof of a layer was lucky.
pub open spec fn lucky_layer<F: JoltField>(
    proof: BatchedGrandProductLayerProof<F>,
    rows: Seq<Seq<int>>,
    claims: Seq<int>,
    r: Seq<int>,
    state: Seq<u8>,
) -> bool {
    let m = F::modulus();
    let l = rows.len();
    let truth = poly::evals_at(layer::next_layer(rows, m), r, m);
    let rho = transcript::challenges::<F>(state, "rand_coeffs_next_layer"@, l);
    let s1 = transcript::squeeze_many(state, "rand_coeffs_next_layer"@, l);
    let x = sumcheck::round_challenges::<F>(s1, proof.proof@);
    let claim = arith::sum(l, |i: int| claims[i] * rho[i]);
    ||| combination::lucky_coefficients(claims, truth, rho, m)
    ||| sumcheck::was_lucky(
        (LayerRule { rho }),
        layer::layer_tables(rows, r, m),
        r.len(),
        proof.proof@,
        x,
        claim % m,
        m,
    )
    ||| some_lucky_line(
        field::values(proof.left_claims@),
        field::values(proof.right_claims@),
        poly::evals_at(rows, x.push(0), m),
        poly::evals_at(rows, x.push(1), m),
        proof.r_layer(state, l),
        m,
    )
}

/// The proof of the layer `p` was lucky, for the claims, at the point and in the state that
/// the proofs before it led to.
pub open spec fn lucky_step<F: JoltField>(
    levels: Seq<Seq<Seq<int>>>,
    proofs: Seq<BatchedGrandProductLayerProof<F>>,
    claims: Seq<int>,
    r: Seq<int>,
    state: Seq<u8>,
    p: int,
) -> bool {
    let before = grand_product::layers_verdict(proofs.take(p), claims, r, state);
    &&& 0 <= p < proofs.len()
    &&& before.0 matches Ok((c, q)) && lucky_layer(
        proofs[p],
        levels[levels.len() - 2 - p],
        c,
        q,
        before.1,
    )
}

/// If the proofs of all layers are accepted and the values of the bottom layer that are handed
/// on are true, then the claims are the values of the top layer. Or else one of the layers
/// was lucky.
pub proof fn lemma_accepted_layers<F: JoltField>(
    levels: Seq<Seq<Seq<int>>>,
    n: nat,
    proofs: Seq<BatchedGrandProductLayerProof<F>>,
    claims: Seq<int>,
    r: Seq<int>,
    state: Seq<u8>,
    point: Seq<int>,
)
    requires
        grand_product::chained(levels, n, F::modulus()),
        levels.len() == proofs.len() + 1,
        r.len() == n,
        claims.len() == levels[0].len(),
        field::canonical::<F>(claims),
        grand_product::layers_verdict(proofs, claims, r, state).0 == Ok::<
            (Seq<int>, Seq<int>),
            GrandProductError,
        >((poly::evals_at(levels[0], point, F::modulus()), point)),
    ensures
        claims == poly::evals_at(levels.last(), r, F::modulus()) || exists|p: int|
            lucky_step(levels, proofs, claims, r, state, p),
    decreases proofs.len(),
{
    F::lemma_modulus();
    let m = F::modulus();
    if proofs.len() > 0 {
        let k = proofs.len() - 1;
        let less = proofs.drop_last();
        assert(proofs.take(k) =~= less);
        assert(proofs.take(k + 1) =~= proofs);
        grand_product::lemma_every_layer_accepted(proofs, claims, r, state, k);
        let before = grand_product::layers_verdict(less, claims, r, state);
        let (c, q) = before.0->Ok_0;
        let rows = levels[0];
        assert(grand_product::level_fits(levels, n, 0, m));
        lemma_accepted_layer(proofs[k], rows, c, q, before.1, point);
        let above = levels[1];
        if forall|i: int|
            0 <= i < rows.len() ==> arith::cong(#[trigger] c[i], mle::eval(above[i], q), m) {
            lemma_claims_canonical(less, claims, r, state);
            let truth = poly::evals_at(above, q, m);
            assert(grand_product::level_fits(levels, n, 1, m));
            assert forall|i: int| 0 <= i < c.len() implies c[i] == truth[i] by {
                assert(arith::cong(c[i], mle::eval(above[i], q), m));
                arith::lemma_reduced_fixed(c[i], m);
            }
            assert(c =~= truth);
            let upper = levels.drop_first();
            assert forall|d: int| 0 <= d < upper.len() implies #[trigger] grand_product::level_fits(
                upper,
                n,
                d,
                m,
            ) by {
                assert(grand_product::level_fits(levels, n, d + 1, m));
            }
            lemma_accepted_layers(upper, n, less, claims, r, state, q);
            if exists|p: int| lucky_step(upper, less, claims, r, state, p) {
                let p = choose|p: int| lucky_step(upper, less, claims, r, state, p);
                assert(less.take(p) =~= proofs.take(p));
                assert(lucky_step(levels, proofs, claims, r, state, p));
            }
        } else {
            assert(lucky_layer(proofs[k], rows, c, q, before.1));
            assert(lucky_step(levels, proofs, claims, r, state, k));
        }
    }
}

/// What is handed on are representatives.
proof fn lemma_claims_canonical<F: JoltField>(
    proofs: Seq<BatchedGrandProductLayerProof<F>>,
    claims: Seq<int>,
    r: Seq<int>,
    state: Seq<u8>,
)
    requires
        field::canonical::<F>(claims),
        grand_product::layers_verdict(proofs, claims, r, state).0 is Ok,
    ensures
        grand_product::layers_verdict(proofs, claims, r, state).0 matches Ok((c, q))
            && field::canonical::<F>(c),
{
    F::lemma_modulus();
    if proofs.len() > 0 {
        let before = grand_product::layers_verdict(proofs.drop_last(), claims, r, state);
        let (c, q) = before.0->Ok_0;
        let next = proofs.last().next_claims(before.1, c.len());
        let left = field::values(proofs.last().left_claims@);
        let right = field::values(proofs.last().right_claims@);
        let t = proofs.last().r_layer(before.1, c.len());
        assert forall|i: int| 0 <= i < next.len() implies 0 <= #[trigger] next[i]
            < F::modulus() by {
            arith::lemma_reduce(left[i] + t * (right[i] - left[i]), F::modulus());
        }
    }
}

/// If a proof without a quark proof is accepted and the values of the leaves that are handed
/// on are true, then the claims are the products of the leaves. Or else one of the layers was
/// lucky.
pub proof fn lemma_accepted_products<C: CommitmentScheme>(
    proof: BatchedGrandProductProof<C>,
    leaves: Seq<Seq<int>>,
    k: nat,
    claims: Seq<int>,
    setup: Option<C::Setup>,
    state: Seq<u8>,
    point: Seq<int>,
)
    requires
        proof.quark_proof is None,
        leaves.len() > 0,
        poly::tables_have_vars(leaves, k),
        proof.layers@.len() == k,
        claims.len() == leaves.len(),
        field::canonical::<C::Field>(claims),
        grand_product::verdict(proof, claims, setup, state).0 == Ok::<
            (Seq<int>, Seq<int>),
            GrandProductError,
        >((poly::evals_at(leaves, point, C::Field::modulus()), point)),
    ensures
        claims == Seq::new(
            leaves.len(),
            |i: int| arith::product(leaves[i]) % C::Field::modulus(),
        ) || exists|p: int|
            lucky_step(
                grand_product::tower(leaves, k, C::Field::modulus()),
                proof.layers@,
                claims,
                Seq::empty(),
                state,
                p,
            ),
{
    C::Field::lemma_modulus();
    let m = C::Field::modulus();
    let levels = grand_product::tower(leaves, k, m);
    let r = Seq::<int>::empty();
    grand_product::lemma_chained(leaves, 0, k, m);
    assert(levels[0] == leaves);
    lemma_accepted_layers(levels, 0, proof.layers@, claims, r, state, point);
    grand_product::lemma_top_products(leaves, k, m);
    assert(quark_identity::products(leaves, m) =~= Seq::new(
        leaves.len(),
        |i: int| arith::product(leaves[i]) % m,
    ));
}

/// If a proof with a quark proof is accepted and the values of the leaves that are handed on
/// are true, then the quark proof is accepted and hands on the true values of the layer that
/// it starts from. Or else one of the layers below it was lucky.
pub proof fn lemma_accepted_hybrid<C: CommitmentScheme>(
    proof: BatchedGrandProductProof<C>,
    q: QuarkGrandProductProof<C>,
    levels: Seq<Seq<Seq<int>>>,
    n: nat,
    claims: Seq<int>,
    setup: C::Setup,
    state: Seq<u8>,
    point: Seq<int>,
)
    requires
        proof.quark_proof == Some(q),
        grand_product::chained(levels, n, C::Field::modulus()),
        levels.len() == proof.layers@.len() + 1,
        q.num_vars == n,
        grand_product::verdict(proof, claims, Some(setup), state).0 == Ok::<
            (Seq<int>, Seq<int>),
            GrandProductError,
        >((poly::evals_at(levels[0], point, C::Field::modulus()), point)),
    ensures
        ({
            let m = C::Field::modulus();
            let answer = quark::verdict(q, claims, n, setup, state);
            &&& answer.0 matches Ok((c, r)) && (c == poly::evals_at(levels.last(), r, m) || exists|
                p: int,
            | lucky_step(levels, proof.layers@, c, r, answer.1, p))
        }),
{
    C::Field::lemma_modulus();
    let m = C::Field::modulus();
    let answer = quark::verdict(q, claims, n, setup, state);
    let (c, r) = answer.0->Ok_0;
    let h_0 = field::values(q.helper_values.0@);
    let h_1 = field::values(q.helper_values.1@);
    grand_product::lemma_handed_on(proof.layers@, c, r, answer.1);
    assert(c.len() == levels[0].len());
    assert forall|i: int| 0 <= i < c.len() implies 0 <= #[trigger] c[i] < m by {
        let u = r.last();
        assert(c[i] == (h_0[i] + u * (h_1[i] - h_0[i])) % m);
        arith::lemma_reduce(h_0[i] + u * (h_1[i] - h_0[i]), m);
    }
    lemma_accepted_layers(levels, n, proof.layers@, c, r, answer.1, point);
}

} // verus!
