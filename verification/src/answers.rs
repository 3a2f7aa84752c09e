//! When the verifiers accept, and what they answer when they do not.
use crate::arith;
use crate::combination;
use crate::commitment::CommitmentScheme;
use crate::errors::{GrandProductError, QuarkError};
use crate::field;
use crate::field::JoltField;
use crate::layer;
use crate::layer::BatchedGrandProductLayerProof;
use crate::line_reduction;
use crate::mle;
use crate::quark;
use crate::quark::QuarkGrandProductProof;
use crate::sumcheck;
use crate::transcript;
use vstd::prelude::*;

verus! {

/// The values at `t` of lines by their values at zero and one: there are as many as there are
/// lines with both values.
pub open spec fn on_lines(v: Seq<int>, a: Seq<int>, b: Seq<int>, t: int, m: int) -> bool {
    &&& v.len() <= a.len() && v.len() <= b.len()
    &&& v.len() == a.len() || v.len() == b.len()
    &&& forall|i: int| 0 <= i < v.len() ==> #[trigger] v[i] == (a[i] + t * (b[i] - a[i])) % m
}

/// A quark proof is accepted if and only if its sum-check has one message of three
/// coefficients for each of the rounds, of which there is one at least, the commitment scheme
/// accepts the opening at the challenges and the opening on the line, and the opened values
/// give the claim that the sum-check leaves.
///
/// A sum-check of another shape, a refused opening and values that do not match are answered
/// by their own errors, in this order. The point `tau` and the coefficients are drawn after
/// the claims and the commitments, the coordinate of each line after the values at its ends.
/// What is handed on is the value on the line of the leaves at the last coordinate.
pub proof fn lemma_quark_answer<C: CommitmentScheme>(
    proof: QuarkGrandProductProof<C>,
    claims: Seq<int>,
    n: nat,
    setup: C::Setup,
    state: Seq<u8>,
    g_t: Seq<int>,
    h_u: Seq<int>,
    r_0: Seq<int>,
    r_1: Seq<int>,
)
    requires
        ({
            let m = C::Field::modulus();
            let cs = proof.g_commitment@;
            let l = cs.len();
            let s0 = transcript::absorb_scalars::<C::Field>(state, "grand product claim"@, claims);
            let s1 = quark::absorb_commitments(s0, cs);
            let st = transcript::squeeze_many(s1, "element for eval poly"@, n);
            let s2 = transcript::squeeze_many(st, "for the random linear comb"@, l);
            let x = sumcheck::round_challenges::<C::Field>(s2, proof.sumcheck_proof@);
            let s3 = sumcheck::rounds_state::<C::Field>(s2, proof.sumcheck_proof@);
            let one_r = field::values(proof.claimed_eval_g_r.0@);
            let s4 = C::after_verify(proof.claimed_eval_g_r.1, setup, x, one_r, cs, s3);
            let g_0 = field::values(proof.claimed_eval_g_r_x.0@);
            let g_1 = field::values(proof.claimed_eval_g_r_x.1@);
            let h_0 = field::values(proof.helper_values.0@);
            let h_1 = field::values(proof.helper_values.1@);
            let s5 = after_both::<C::Field>(s4, g_0, g_1);
            let g_point = x.drop_first().push(C::Field::decoding(s5));
            let s6 = C::after_verify(proof.claimed_eval_g_r_x.2, setup, g_point, g_t, cs, s5);
            let s7 = after_both::<C::Field>(s6, h_0, h_1);
            &&& on_lines(g_t, g_0, g_1, C::Field::decoding(s5), m)
            &&& on_lines(h_u, h_0, h_1, C::Field::decoding(s7), m)
            &&& on_lines(r_0, h_0, g_0, x[0], m)
            &&& on_lines(r_1, h_1, g_1, x[0], m)
        }),
    ensures
        ({
            let m = C::Field::modulus();
            let cs = proof.g_commitment@;
            let l = cs.len();
            let msgs = proof.sumcheck_proof@;
            let s0 = transcript::absorb_scalars::<C::Field>(state, "grand product claim"@, claims);
            let s1 = quark::absorb_commitments(s0, cs);
            let st = transcript::squeeze_many(s1, "element for eval poly"@, n);
            let s2 = transcript::squeeze_many(st, "for the random linear comb"@, l);
            let tau = transcript::challenges::<C::Field>(s1, "element for eval poly"@, n);
            let rho = transcript::challenges::<C::Field>(st, "for the random linear comb"@, l);
            let x = sumcheck::round_challenges::<C::Field>(s2, msgs);
            let s3 = sumcheck::rounds_state::<C::Field>(s2, msgs);
            let one_r = field::values(proof.claimed_eval_g_r.0@);
            let s4 = C::after_verify(proof.claimed_eval_g_r.1, setup, x, one_r, cs, s3);
            let g_0 = field::values(proof.claimed_eval_g_r_x.0@);
            let g_1 = field::values(proof.claimed_eval_g_r_x.1@);
            let h_0 = field::values(proof.helper_values.0@);
            let h_1 = field::values(proof.helper_values.1@);
            let s5 = after_both::<C::Field>(s4, g_0, g_1);
            let g_point = x.drop_first().push(C::Field::decoding(s5));
            let g_proof = proof.claimed_eval_g_r_x.2;
            let s6 = C::after_verify(g_proof, setup, g_point, g_t, cs, s5);
            let s7 = after_both::<C::Field>(s6, h_0, h_1);
            let k = if claims.len() <= l {
                claims.len()
            } else {
                l
            };
            let left = sumcheck::running_claim(
                arith::sum(k, |i: int| claims[i] * rho[i]) % m,
                msgs,
                x,
                m,
            );
            let eq = mle::eq_at(x, tau) % m;
            let one = mle::eq_at(x, mle::ones(n)) % m;
            let shaped = n > 0 && msgs.len() == n && (forall|j: int|
                0 <= j < n ==> (#[trigger] msgs[j]).len() == 3);
            let opened = C::accepts(proof.claimed_eval_g_r.1, setup, x, one_r, cs, s3);
            let line_opened = C::accepts(g_proof, setup, g_point, g_t, cs, s5);
            let binds = r_0.len() <= rho.len() && r_0.len() <= one_r.len() && r_0.len()
                <= r_1.len() && arith::sum(
                r_0.len(),
                |i: int| rho[i] * (eq * (one_r[i] - r_0[i] * r_1[i]) + one * r_0[i]),
            ) % m == left;
            let answer = quark::verdict(proof, claims, n, setup, state).0;
            let end = quark::verdict(proof, claims, n, setup, state).1;
            &&& answer is Ok <==> shaped && opened && line_opened && binds
            &&& answer is Ok ==> answer == Ok::<(Seq<int>, Seq<int>), QuarkError>(
                (h_u, x.drop_first().push(C::Field::decoding(s7))),
            ) && end == s7
            &&& answer == Err::<(Seq<int>, Seq<int>), QuarkError>(
                QuarkError::InvalidQuarkSumcheck,
            ) <==> !shaped
            &&& !shaped ==> end == s2
            &&& answer == Err::<(Seq<int>, Seq<int>), QuarkError>(
                QuarkError::InvalidOpeningProof,
            ) <==> shaped && !(opened && line_opened)
            &&& shaped && !opened ==> end == s4
            &&& shaped && opened && !line_opened ==> end == s6
            &&& answer == Err::<(Seq<int>, Seq<int>), QuarkError>(QuarkError::InvalidBinding)
                <==> shaped && opened && line_opened && !binds
            &&& shaped && opened && line_opened ==> end == s7
        }),
{
    let m = C::Field::modulus();
    let cs = proof.g_commitment@;
    let l = cs.len();
    let s0 = transcript::absorb_scalars::<C::Field>(state, "grand product claim"@, claims);
    let s1 = quark::absorb_commitments(s0, cs);
    let st = transcript::squeeze_many(s1, "element for eval poly"@, n);
    let s2 = transcript::squeeze_many(st, "for the random linear comb"@, l);
    let tau = transcript::challenges::<C::Field>(s1, "element for eval poly"@, n);
    let rho = transcript::challenges::<C::Field>(st, "for the random linear comb"@, l);
    let x = sumcheck::round_challenges::<C::Field>(s2, proof.sumcheck_proof@);
    let s3 = sumcheck::rounds_state::<C::Field>(s2, proof.sumcheck_proof@);
    let one_r = field::values(proof.claimed_eval_g_r.0@);
    let s4 = C::after_verify(proof.claimed_eval_g_r.1, setup, x, one_r, cs, s3);
    let g_0 = field::values(proof.claimed_eval_g_r_x.0@);
    let g_1 = field::values(proof.claimed_eval_g_r_x.1@);
    let h_0 = field::values(proof.helper_values.0@);
    let h_1 = field::values(proof.helper_values.1@);
    let s5 = after_both::<C::Field>(s4, g_0, g_1);
    let g_point = x.drop_first().push(C::Field::decoding(s5));
    let s6 = C::after_verify(proof.claimed_eval_g_r_x.2, setup, g_point, g_t, cs, s5);
    let s7 = after_both::<C::Field>(s6, h_0, h_1);
    lemma_on_lines(g_t, g_0, g_1, C::Field::decoding(s5), m);
    lemma_on_lines(h_u, h_0, h_1, C::Field::decoding(s7), m);
    lemma_on_lines(r_0, h_0, g_0, x[0], m);
    lemma_on_lines(r_1, h_1, g_1, x[0], m);
    let eq = mle::eq_at(x, tau) % m;
    let one = mle::eq_at(x, mle::ones(n)) % m;
    let f = |i: int| rho[i] * (eq * (one_r[i] - r_0[i] * r_1[i]) + one * r_0[i]);
    let g = |i: int| combination::quark_term(rho[i], eq, one, one_r[i], r_0[i], r_1[i]);
    arith::lemma_sum_ext(r_0.len(), f, g);
}

/// What lies on the lines is what the reduction computes.
proof fn lemma_on_lines(v: Seq<int>, a: Seq<int>, b: Seq<int>, t: int, m: int)
    requires
        on_lines(v, a, b, t, m),
    ensures
        v == line_reduction::line_claims(a, b, t, m),
{
    assert(v =~= line_reduction::line_claims(a, b, t, m));
}

/// A proof of a layer is accepted if and only if its sum-check has one message of three
/// coefficients for each coordinate of the point, there is a left and a right claim for each
/// grand product, and these claims give the claim that the sum-check leaves.
///
/// A sum-check of another shape, missing claims and claims that do not match are answered by
/// their own errors, in this order. The coefficients are drawn before the sum-check, one for
/// each claim, and the last coordinate of the point that is handed on after all claims on the
/// factors.
pub proof fn lemma_layer_answer<F: JoltField>(
    proof: BatchedGrandProductLayerProof<F>,
    claims: Seq<int>,
    r: Seq<int>,
    state: Seq<u8>,
    next: Seq<int>,
)
    requires
        ({
            let l = claims.len();
            let left = field::values(proof.left_claims@);
            let right = field::values(proof.right_claims@);
            let s1 = transcript::squeeze_many(state, "rand_coeffs_next_layer"@, l);
            let s2 = sumcheck::rounds_state::<F>(s1, proof.proof@);
            let s4 = transcript::squeeze(
                layer::pairs_state::<F>(s2, left, right),
                "challenge_r_layer"@,
            );
            on_lines(next, left, right, F::decoding(s4), F::modulus())
        }),
    ensures
        ({
            let m = F::modulus();
            let l = claims.len();
            let msgs = proof.proof@;
            let left = field::values(proof.left_claims@);
            let right = field::values(proof.right_claims@);
            let rho = transcript::challenges::<F>(state, "rand_coeffs_next_layer"@, l);
            let s1 = transcript::squeeze_many(state, "rand_coeffs_next_layer"@, l);
            let x = sumcheck::round_challenges::<F>(s1, msgs);
            let s2 = sumcheck::rounds_state::<F>(s1, msgs);
            let s3 = layer::pairs_state::<F>(s2, left, right);
            let s4 = transcript::squeeze(s3, "challenge_r_layer"@);
            let expected = sumcheck::running_claim(
                arith::sum(l, |i: int| claims[i] * rho[i]) % m,
                msgs,
                x,
                m,
            );
            let eq = mle::eq_at(r, x) % m;
            let shaped = msgs.len() == r.len() && (forall|j: int|
                0 <= j < r.len() ==> (#[trigger] msgs[j]).len() == 3);
            let paired = left.len() == l && right.len() == l;
            let binds = arith::sum(l, |i: int| rho[i] * (eq * (left[i] * right[i]))) % m
                == expected;
            let answer = proof.verdict(claims, r, state).0;
            let end = proof.verdict(claims, r, state).1;
            &&& answer is Ok <==> shaped && paired && binds
            &&& answer is Ok ==> answer == Ok::<(Seq<int>, Seq<int>), GrandProductError>(
                (next, x.push(F::decoding(s4))),
            ) && end == s4
            &&& answer == Err::<(Seq<int>, Seq<int>), GrandProductError>(
                GrandProductError::InvalidLayerSumcheck,
            ) <==> !shaped
            &&& !shaped ==> end == s1
            &&& answer == Err::<(Seq<int>, Seq<int>), GrandProductError>(
                GrandProductError::InvalidLayerClaims,
            ) <==> shaped && !paired
            &&& shaped && !paired ==> end == s2
            &&& answer == Err::<(Seq<int>, Seq<int>), GrandProductError>(
                GrandProductError::InvalidLayerBinding,
            ) <==> shaped && paired && !binds
            &&& shaped && paired && !binds ==> end == s3
        }),
{
    let m = F::modulus();
    let l = claims.len();
    let left = field::values(proof.left_claims@);
    let right = field::values(proof.right_claims@);
    let rho = transcript::challenges::<F>(state, "rand_coeffs_next_layer"@, l);
    let s1 = transcript::squeeze_many(state, "rand_coeffs_next_layer"@, l);
    let x = sumcheck::round_challenges::<F>(s1, proof.proof@);
    let s2 = sumcheck::rounds_state::<F>(s1, proof.proof@);
    let s4 = transcript::squeeze(layer::pairs_state::<F>(s2, left, right), "challenge_r_layer"@);
    lemma_on_lines(next, left, right, F::decoding(s4), m);
    let eq = mle::eq_at(r, x) % m;
    let f = |i: int| rho[i] * (eq * (left[i] * right[i]));
    let g = |i: int| combination::layer_term(rho[i], eq, left[i], right[i]);
    arith::lemma_sum_ext(l, f, g);
}

/// The state after the values at both ends of a line, and the random coordinate.
pub open spec fn after_both<F: JoltField>(state: Seq<u8>, a: Seq<int>, b: Seq<int>) -> Seq<u8> {
    transcript::squeeze(
        transcript::absorb_scalars::<F>(
            transcript::absorb_scalars::<F>(state, "claims for line reduction 0"@, a),
            "claims for line reduction 1"@,
            b,
        ),
        "loading r_star"@,
    )
}

} // verus!
