//! The layers of products of a batch of grand products.
//!
//! A layer holds the factors of the layer above it: each entry above is the product of
//! two neighbours below. A sum-check takes claims on the values of the layer above at a
//! random point to claims on the values of the layer itself at another random point.
use crate::arith;
use crate::combination;
use crate::combination::{LayerCombination, LayerRule};
use crate::errors::GrandProductError;
use crate::field;
use crate::field::JoltField;
use crate::line_reduction;
use crate::math;
use crate::mle;
use crate::poly;
use crate::poly::{DensePolynomial, EqPolynomial};
use crate::sumcheck;
use crate::sumcheck::{Summand, SumcheckInstanceProof};
use crate::transcript;
use crate::transcript::ProofTranscript;
use vstd::arithmetic::power2::*;
use vstd::prelude::*;

verus! {

/// One layer of each grand product of a batch.
pub struct BatchedDenseGrandProductLayer<F: JoltField> {
    /// The layers, one for each grand product.
    pub layers: Vec<Vec<F>>,
    /// The number of entries of a layer.
    pub layer_len: usize,
}

/// A proof of one layer of a batch of grand products.
pub struct BatchedGrandProductLayerProof<F: JoltField> {
    /// The sum-check on the products of the factors.
    pub proof: SumcheckInstanceProof<F>,
    /// The values of the left factors at the challenges of the sum-check.
    pub left_claims: Vec<F>,
    /// The values of the right factors at the challenges of the sum-check.
    pub right_claims: Vec<F>,
}

/// The products of neighbours in the layers `rows`, reduced.
pub open spec fn next_layer(rows: Seq<Seq<int>>, m: int) -> Seq<Seq<int>> {
    Seq::new(
        rows.len(),
        |i: int|
            Seq::new(rows[0].len() / 2, |j: int| (rows[i][2 * j] * rows[i][2 * j + 1]) % m),
    )
}

/// The left factors of the layers `rows`.
pub open spec fn left_tables(rows: Seq<Seq<int>>) -> Seq<Seq<int>> {
    Seq::new(rows.len(), |i: int| mle::evens(rows[i]))
}

/// The right factors of the layers `rows`.
pub open spec fn right_tables(rows: Seq<Seq<int>>) -> Seq<Seq<int>> {
    Seq::new(rows.len(), |i: int| mle::odds(rows[i]))
}

/// The polynomials of the sum-check of a layer: the left and the right factors of each
/// grand product, then `eq(r, x)`.
pub open spec fn layer_tables(rows: Seq<Seq<int>>, r: Seq<int>, m: int) -> Seq<Seq<int>> {
    let l = rows.len() as int;
    Seq::new(
        2 * rows.len() + 1,
        |j: int|
            if j < 2 * l {
                if j % 2 == 0 {
                    mle::evens(rows[j / 2])
                } else {
                    mle::odds(rows[j / 2])
                }
            } else {
                arith::reduced(mle::chis(r), m)
            },
    )
}

/// The state of the transcript after the claims on the factors.
pub open spec fn pairs_state<F: JoltField>(
    state: Seq<u8>,
    left: Seq<int>,
    right: Seq<int>,
) -> Seq<u8>
    decreases left.len(),
{
    if left.len() == 0 {
        state
    } else {
        transcript::absorb(
            transcript::absorb(
                pairs_state::<F>(state, left.drop_last(), right.drop_last()),
                "sumcheck left claim"@,
                F::encoding(left.last()),
            ),
            "sumcheck right claim"@,
            F::encoding(right.last()),
        )
    }
}

/// The `l` random coefficients of the sum-check of a layer.
pub open spec fn layer_rho<F: JoltField>(state: Seq<u8>, l: nat) -> Seq<int> {
    transcript::challenges::<F>(state, "rand_coeffs_next_layer"@, l)
}

/// The state of the transcript before the sum-check of a layer.
pub open spec fn layer_start(state: Seq<u8>, l: nat) -> Seq<u8> {
    transcript::squeeze_many(state, "rand_coeffs_next_layer"@, l)
}

impl<F: JoltField> BatchedGrandProductLayerProof<F> {
    /// The challenges of the sum-check.
    pub open spec fn challenges(self, state: Seq<u8>, l: nat) -> Seq<int> {
        sumcheck::round_challenges::<F>(layer_start(state, l), self.proof@)
    }

    /// The state of the transcript after the claims on the factors.
    pub open spec fn claimed_state(self, state: Seq<u8>, l: nat) -> Seq<u8> {
        pairs_state::<F>(
            sumcheck::rounds_state::<F>(layer_start(state, l), self.proof@),
            field::values(self.left_claims@),
            field::values(self.right_claims@),
        )
    }

    /// The random coordinate that reduces the claims on both factors to one.
    pub open spec fn r_layer(self, state: Seq<u8>, l: nat) -> int {
        transcript::challenge::<F>(self.claimed_state(state, l), "challenge_r_layer"@)
    }

    /// The point to which the claims are moved.
    pub open spec fn next_point(self, state: Seq<u8>, l: nat) -> Seq<int> {
        self.challenges(state, l).push(self.r_layer(state, l))
    }

    /// The claims at the point to which they are moved.
    pub open spec fn next_claims(self, state: Seq<u8>, l: nat) -> Seq<int> {
        line_reduction::line_claims(
            field::values(self.left_claims@),
            field::values(self.right_claims@),
            self.r_layer(state, l),
            F::modulus(),
        )
    }

    /// The claimed left and right factor of each grand product.
    pub open spec fn factors(self) -> Seq<Seq<int>> {
        Seq::new(
            self.left_claims@.len(),
            |i: int| seq![self.left_claims@[i]@, self.right_claims@[i]@],
        )
    }

    /// The state of the transcript after the layer.
    pub open spec fn next_state(self, state: Seq<u8>, l: nat) -> Seq<u8> {
        transcript::squeeze(self.claimed_state(state, l), "challenge_r_layer"@)
    }

    /// This is the proof that the protocol prescribes for the layers `rows` and claims at
    /// the point `r`, with the transcript in the state `state`.
    #[verifier::opaque]
    pub open spec fn proves(self, rows: Seq<Seq<int>>, r: Seq<int>, state: Seq<u8>) -> bool {
        let m = F::modulus();
        let x = self.challenges(state, rows.len());
        &&& sumcheck::honest(
            LayerRule { rho: layer_rho::<F>(state, rows.len()) },
            layer_tables(rows, r, m),
            r.len(),
            self.proof@,
            x,
            m,
        )
        &&& field::values(self.left_claims@) == poly::evals_at(left_tables(rows), x, m)
        &&& field::values(self.right_claims@) == poly::evals_at(right_tables(rows), x, m)
    }

    /// What the verifier answers to this proof for `claims` at the point `r`, and the
    /// state in which it leaves the transcript.
    pub open spec fn verdict(self, claims: Seq<int>, r: Seq<int>, state: Seq<u8>) -> (
        Result<(Seq<int>, Seq<int>), GrandProductError>,
        Seq<u8>,
    ) {
        let m = F::modulus();
        let l = claims.len();
        let rho = layer_rho::<F>(state, l);
        let left = field::values(self.left_claims@);
        let right = field::values(self.right_claims@);
        let x = self.challenges(state, l);
        let expected = sumcheck::running_claim(
            combination::combined(claims, rho) % m,
            self.proof@,
            x,
            m,
        );
        if !sumcheck::well_shaped(self.proof@, r.len()) {
            (Err(GrandProductError::InvalidLayerSumcheck), layer_start(state, l))
        } else if left.len() != l || right.len() != l {
            (
                Err(GrandProductError::InvalidLayerClaims),
                sumcheck::rounds_state::<F>(layer_start(state, l), self.proof@),
            )
        } else if factors_sum(rho, mle::eq_at(r, x) % m, left, right) % m != expected {
            (Err(GrandProductError::InvalidLayerBinding), self.claimed_state(state, l))
        } else {
            (Ok((self.next_claims(state, l), self.next_point(state, l))), self.next_state(state, l))
        }
    }
}

/// The combination of the sum-check of a layer for the factors `left` and `right`.
pub open spec fn factors_sum(rho: Seq<int>, eq: int, left: Seq<int>, right: Seq<int>) -> int {
    arith::sum(
        left.len(),
        |i: int| combination::layer_term(rho[i], eq, left[i], right[i]),
    )
}

/// The entries of the layer above are the products of neighbours.
pub proof fn lemma_next_layer(rows: Seq<Seq<int>>, i: int, j: int, m: int)
    requires
        0 <= i < rows.len(),
        0 <= j,
        2 * j + 1 < rows[0].len(),
    ensures
        next_layer(rows, m).len() == rows.len(),
        next_layer(rows, m)[i].len() == rows[0].len() / 2,
        next_layer(rows, m)[i][j] == (rows[i][2 * j] * rows[i][2 * j + 1]) % m,
{
}

/// Transcripts that differ before the claims on the factors, or in one of them, differ after
/// them, or else they give a collision of the hash function. So the coordinate that reduces
/// the claims depends on all of them.
pub proof fn lemma_pairs_bind<F: JoltField>(
    s1: Seq<u8>,
    s2: Seq<u8>,
    a1: Seq<int>,
    b1: Seq<int>,
    a2: Seq<int>,
    b2: Seq<int>,
) -> (c: (Seq<u8>, Seq<u8>))
    requires
        a1.len() == b1.len(),
        a2.len() == b2.len(),
        a1.len() == a2.len(),
        field::canonical::<F>(a1),
        field::canonical::<F>(b1),
        field::canonical::<F>(a2),
        field::canonical::<F>(b2),
        s1 != s2 || a1 != a2 || b1 != b2,
        pairs_state::<F>(s1, a1, b1) == pairs_state::<F>(s2, a2, b2),
    ensures
        transcript::collides(c.0, c.1),
    decreases a1.len(),
{
    if a1.len() == 0 {
        assert(a1 =~= a2 && b1 =~= b2);
        (s1, s2)
    } else {
        let p = pairs_state::<F>(s1, a1.drop_last(), b1.drop_last());
        let q = pairs_state::<F>(s2, a2.drop_last(), b2.drop_last());
        let (x1, x2) = (F::encoding(a1.last()), F::encoding(a2.last()));
        let (y1, y2) = (F::encoding(b1.last()), F::encoding(b2.last()));
        F::lemma_encoding(a1.last(), a2.last());
        F::lemma_encoding(b1.last(), b2.last());
        let u = transcript::absorb(p, "sumcheck left claim"@, x1);
        let v = transcript::absorb(q, "sumcheck left claim"@, x2);
        if u != v || y1 != y2 {
            transcript::lemma_absorb_binds(u, v, "sumcheck right claim"@, y1, y2)
        } else if p != q || x1 != x2 {
            transcript::lemma_absorb_binds(p, q, "sumcheck left claim"@, x1, x2)
        } else {
            assert(a1.last() == a2.last() && b1.last() == b2.last());
            if a1.drop_last() == a2.drop_last() && b1.drop_last() == b2.drop_last() {
                assert(a1 =~= a1.drop_last().push(a1.last()));
                assert(a2 =~= a2.drop_last().push(a2.last()));
                assert(b1 =~= b1.drop_last().push(b1.last()));
                assert(b2 =~= b2.drop_last().push(b2.last()));
            }
            lemma_pairs_bind::<F>(
                s1,
                s2,
                a1.drop_last(),
                b1.drop_last(),
                a2.drop_last(),
                b2.drop_last(),
            )
        }
    }
}

/// The claims on the factors are added pair by pair, the left one first.
pub proof fn lemma_pairs_state<F: JoltField>(
    state: Seq<u8>,
    left: Seq<int>,
    right: Seq<int>,
    a: int,
    b: int,
)
    requires
        left.len() == right.len(),
    ensures
        pairs_state::<F>(state, Seq::empty(), Seq::empty()) == state,
        pairs_state::<F>(state, left.push(a), right.push(b)) == transcript::absorb(
            transcript::absorb(
                pairs_state::<F>(state, left, right),
                "sumcheck left claim"@,
                F::encoding(a),
            ),
            "sumcheck right claim"@,
            F::encoding(b),
        ),
{
    assert(left.push(a).drop_last() =~= left);
    assert(right.push(b).drop_last() =~= right);
}

/// The coefficients of the sum-check of a layer are drawn one for each claim: each is read
/// from the state that its own draw leaves, and the next one is drawn in that state.
pub proof fn lemma_layer_rho<F: JoltField>(state: Seq<u8>, l: nat)
    ensures
        layer_rho::<F>(state, 0) == Seq::<int>::empty(),
        layer_start(state, 0) == state,
        layer_start(state, l + 1) == transcript::squeeze(
            layer_start(state, l),
            "rand_coeffs_next_layer"@,
        ),
        layer_rho::<F>(state, l + 1) == layer_rho::<F>(state, l).push(
            F::decoding(layer_start(state, l + 1)),
        ),
{
    transcript::lemma_draws::<F>(state, "rand_coeffs_next_layer"@, l);
}

proof fn lemma_layer_tables(rows: Seq<Seq<int>>, r: Seq<int>, i: int, m: int)
    requires
        0 <= i < rows.len(),
    ensures
        ({
            let t = layer_tables(rows, r, m);
            &&& t[2 * i] == mle::evens(rows[i])
            &&& t[2 * i + 1] == mle::odds(rows[i])
            &&& t[2 * (rows.len() as int)] == arith::reduced(mle::chis(r), m)
        }),
{
    assert((2 * i) / 2 == i && (2 * i) % 2 == 0);
    assert((2 * i + 1) / 2 == i && (2 * i + 1) % 2 == 1);
}

/// All polynomials of the sum-check of a layer have the same number of variables.
pub proof fn lemma_layer_tables_vars(rows: Seq<Seq<int>>, r: Seq<int>, m: int)
    requires
        poly::tables_have_vars(rows, r.len() + 1),
    ensures
        poly::tables_have_vars(layer_tables(rows, r, m), r.len()),
        poly::tables_have_vars(left_tables(rows), r.len()),
        poly::tables_have_vars(right_tables(rows), r.len()),
        poly::tables_have_vars(next_layer(rows, m), r.len()),
{
    let t = layer_tables(rows, r, m);
    mle::lemma_chis_len(r);
    mle::lemma_halves(r.len() + 1);
    assert forall|k: int| 0 <= k < t.len() implies (#[trigger] t[k]).len() == pow2(r.len()) by {
        if k < 2 * rows.len() {
            assert(rows[k / 2].len() == pow2(r.len() + 1));
        }
    }
    assert forall|k: int| 0 <= k < rows.len() implies {
        &&& (#[trigger] left_tables(rows)[k]).len() == pow2(r.len())
        &&& (#[trigger] right_tables(rows)[k]).len() == pow2(r.len())
        &&& (#[trigger] next_layer(rows, m)[k]).len() == pow2(r.len())
    } by {
        assert(rows[k].len() == pow2(r.len() + 1));
        assert(rows[0].len() == pow2(r.len() + 1));
    }
}

/// What one grand product adds to the sum-check of a layer: the value of the layer above
/// at `r`, times its coefficient.
proof fn lemma_product_total(rows: Seq<Seq<int>>, r: Seq<int>, c: int, i: int, m: int)
    requires
        m > 0,
        0 <= i < rows.len(),
        poly::tables_have_vars(rows, r.len() + 1),
    ensures
        ({
            let eq = arith::reduced(mle::chis(r), m);
            let row = rows[i];
            arith::cong(
                arith::sum(
                    pow2(r.len()),
                    |x: int| combination::layer_term(c, eq[x], row[2 * x], row[2 * x + 1]),
                ),
                (mle::eval(next_layer(rows, m)[i], r) % m) * c,
                m,
            )
        }),
{
    let eq = arith::reduced(mle::chis(r), m);
    let row = rows[i];
    let above = next_layer(rows, m)[i];
    let chi = mle::chis(r);
    let n = pow2(r.len());
    mle::lemma_chis_len(r);
    mle::lemma_halves(r.len() + 1);
    assert(rows[0].len() == pow2(r.len() + 1));
    assert(rows[i].len() == pow2(r.len() + 1));
    let f = |x: int| combination::layer_term(c, eq[x], row[2 * x], row[2 * x + 1]);
    let g = |x: int| above[x] * chi[x];
    let h = |x: int| c * g(x);
    assert forall|x: int| 0 <= x < n implies arith::cong(#[trigger] f(x), h(x), m) by {
        let p = row[2 * x] * row[2 * x + 1];
        arith::lemma_reduce(p, m);
        arith::lemma_reduce(chi[x], m);
        arith::lemma_cong_mul(eq[x], chi[x], p, above[x], m);
        assert(chi[x] * above[x] == above[x] * chi[x]) by (nonlinear_arith);
        arith::lemma_cong_mul(c, c, eq[x] * p, above[x] * chi[x], m);
    }
    arith::lemma_sum_cong(n, f, h, m);
    arith::lemma_sum_scale(n, c, g);
    mle::lemma_eval_is_dot(above, r);
    assert(arith::dot(above, chi) == arith::sum(n, g));
    let e = mle::eval(above, r);
    arith::lemma_reduce(e, m);
    arith::lemma_cong_mul(e, e % m, c, c, m);
    assert(c * e == e * c) by (nonlinear_arith);
}

/// The sum-check of a layer sums to the combination by `rho` of the values of the layer
/// above at `r`.
pub proof fn lemma_layer_total(rows: Seq<Seq<int>>, r: Seq<int>, rho: Seq<int>, m: int)
    requires
        m > 0,
        rho.len() == rows.len(),
        poly::tables_have_vars(rows, r.len() + 1),
    ensures
        arith::cong(
            sumcheck::total(LayerRule { rho }, layer_tables(rows, r, m), r.len()),
            combination::combined(poly::evals_at(next_layer(rows, m), r, m), rho),
            m,
        ),
{
    let rule = LayerRule { rho };
    let t = layer_tables(rows, r, m);
    let eq = arith::reduced(mle::chis(r), m);
    let n = pow2(r.len());
    let l = rows.len();
    let claims = poly::evals_at(next_layer(rows, m), r, m);
    let f = |x: int, i: int|
        combination::layer_term(rho[i], eq[x], rows[i][2 * x], rows[i][2 * x + 1]);
    let values = |x: int| rule.value(sumcheck::column(t, x));
    let inner = |x: int| arith::sum(l, |i: int| f(x, i));
    mle::lemma_halves(r.len() + 1);
    assert forall|x: int| 0 <= x < n implies #[trigger] values(x) == inner(x) by {
        let v = sumcheck::column(t, x);
        let li = l as int;
        let a = |i: int|
            combination::layer_term(rule.rho[i], v[2 * li], v[2 * i], v[2 * i + 1]);
        let b = |i: int| f(x, i);
        assert forall|i: int| 0 <= i < l implies #[trigger] a(i) == b(i) by {
            lemma_layer_tables(rows, r, i, m);
            assert(rows[i].len() == pow2(r.len() + 1));
        }
        arith::lemma_sum_ext(l, a, b);
        assert(values(x) == arith::sum(l, a));
    }
    arith::lemma_sum_ext(n, values, inner);
    arith::lemma_sum_swap(n, l, f);
    let columns = |i: int| arith::sum(n, |x: int| f(x, i));
    let want = |i: int| claims[i] * rho[i];
    assert forall|i: int| 0 <= i < l implies arith::cong(#[trigger] columns(i), want(i), m) by {
        lemma_product_total(rows, r, rho[i], i, m);
        let row = rows[i];
        let c = rho[i];
        let g = |x: int| combination::layer_term(c, eq[x], row[2 * x], row[2 * x + 1]);
        let k = |x: int| f(x, i);
        arith::lemma_sum_ext(n, k, g);
    }
    arith::lemma_sum_cong(l, columns, want, m);
}

/// The claims on both factors, reduced to one, are the values of the layer at the point
/// that is extended by the random coordinate.
pub proof fn lemma_next_claims<F: JoltField>(rows: Seq<Seq<int>>, x: Seq<int>, t: int)
    requires
        poly::tables_have_vars(rows, x.len() + 1),
    ensures
        line_reduction::line_claims(
            poly::evals_at(left_tables(rows), x, F::modulus()),
            poly::evals_at(right_tables(rows), x, F::modulus()),
            t,
            F::modulus(),
        ) == poly::evals_at(rows, x.push(t), F::modulus()),
{
    line_reduction::lemma_line_reduction::<F>(rows, x, true, t);
    lemma_factor_values(rows, x, F::modulus());
}

/// The left factors are the layer with its last variable at zero, the right ones that with
/// its last variable at one.
pub proof fn lemma_factor_values(rows: Seq<Seq<int>>, x: Seq<int>, m: int)
    requires
        poly::tables_have_vars(rows, x.len() + 1),
    ensures
        poly::evals_at(left_tables(rows), x, m) == poly::evals_at(rows, x.push(0), m),
        poly::evals_at(right_tables(rows), x, m) == poly::evals_at(rows, x.push(1), m),
{
    let left = poly::evals_at(left_tables(rows), x, m);
    let right = poly::evals_at(right_tables(rows), x, m);
    let low = poly::evals_at(rows, x.push(0), m);
    let high = poly::evals_at(rows, x.push(1), m);
    assert forall|i: int| 0 <= i < rows.len() implies left[i] == low[i] by {
        assert(rows[i].len() == pow2(x.len() + 1));
        mle::lemma_eval_push(rows[i], x, 0);
    }
    assert forall|i: int| 0 <= i < rows.len() implies right[i] == high[i] by {
        assert(rows[i].len() == pow2(x.len() + 1));
        mle::lemma_eval_push(rows[i], x, 0);
    }
    assert(left =~= low);
    assert(right =~= high);
}

/// A proof of a layer is accepted if the prover made it, for true claims on the layer
/// above, and leaves true claims on the layer itself.
pub proof fn lemma_layer_completeness<F: JoltField>(
    proof: BatchedGrandProductLayerProof<F>,
    rows: Seq<Seq<int>>,
    claims: Seq<int>,
    r: Seq<int>,
    state: Seq<u8>,
)
    requires
        poly::tables_have_vars(rows, r.len() + 1),
        claims == poly::evals_at(next_layer(rows, F::modulus()), r, F::modulus()),
        proof.proves(rows, r, state),
    ensures
        proof.verdict(claims, r, state) == (
            Ok::<(Seq<int>, Seq<int>), GrandProductError>(
                (
                    poly::evals_at(rows, proof.next_point(state, rows.len()), F::modulus()),
                    proof.next_point(state, rows.len()),
                ),
            ),
            proof.next_state(state, rows.len()),
        ),
        proof.next_point(state, rows.len()).len() == r.len() + 1,
{
    reveal(BatchedGrandProductLayerProof::proves);
    let l = rows.len();
    let x = proof.challenges(state, l);
    lemma_layer_binding(proof, rows, claims, r, state);
    assert(claims.len() == l);
    lemma_next_claims::<F>(rows, x, proof.r_layer(state, l));
}

/// The sum-check of an honest proof of a layer is accepted, and the claims on the factors
/// match its result.
proof fn lemma_layer_binding<F: JoltField>(
    proof: BatchedGrandProductLayerProof<F>,
    rows: Seq<Seq<int>>,
    claims: Seq<int>,
    r: Seq<int>,
    state: Seq<u8>,
)
    requires
        poly::tables_have_vars(rows, r.len() + 1),
        claims == poly::evals_at(next_layer(rows, F::modulus()), r, F::modulus()),
        proof.proves(rows, r, state),
    ensures
        ({
            let m = F::modulus();
            let rho = layer_rho::<F>(state, rows.len());
            let x = proof.challenges(state, rows.len());
            &&& x.len() == r.len()
            &&& sumcheck::well_shaped(proof.proof@, r.len())
            &&& proof.left_claims@.len() == rows.len()
            &&& proof.right_claims@.len() == rows.len()
            &&& factors_sum(
                rho,
                mle::eq_at(r, x) % m,
                field::values(proof.left_claims@),
                field::values(proof.right_claims@),
            ) % m == sumcheck::running_claim(
                combination::combined(claims, rho) % m,
                proof.proof@,
                x,
                m,
            )
        }),
{
    reveal(BatchedGrandProductLayerProof::proves);
    F::lemma_modulus();
    let m = F::modulus();
    let l = rows.len();
    let rho = layer_rho::<F>(state, l);
    let x = proof.challenges(state, l);
    let t = layer_tables(rows, r, m);
    let rule = LayerRule { rho };
    let msgs = proof.proof@;
    lemma_layer_tables_vars(rows, r, m);
    assert forall|j: int| 0 <= j < r.len() implies (#[trigger] msgs[j]).len() == 3 by {}
    assert(field::values(proof.left_claims@).len() == l);
    assert(field::values(proof.right_claims@).len() == l);
    let claim = combination::combined(claims, rho) % m;
    let expected = sumcheck::running_claim(claim, msgs, x, m);
    lemma_layer_total(rows, r, rho, m);
    arith::lemma_reduce(combination::combined(claims, rho), m);
    sumcheck::lemma_honest_rounds(rule, t, r.len(), msgs, x, claim, m);
    if r.len() > 0 {
        arith::lemma_reduce(
            sumcheck::next_claim(
                msgs.last(),
                sumcheck::running_claim(claim, msgs.drop_last(), x.drop_last(), m),
                x.last(),
            ),
            m,
        );
    }
    arith::lemma_reduced_fixed(expected, m);
    lemma_factors_sum(rows, r, rho, x, m);
}

/// From true values of both factors, the verifier finds the true value of the combination
/// of the sum-check at the challenges `x`.
pub proof fn lemma_factors_sum(rows: Seq<Seq<int>>, r: Seq<int>, rho: Seq<int>, x: Seq<int>, m: int)
    requires
        m > 0,
        x.len() == r.len(),
        rho.len() == rows.len(),
        poly::tables_have_vars(rows, r.len() + 1),
    ensures
        factors_sum(
            rho,
            mle::eq_at(r, x) % m,
            poly::evals_at(left_tables(rows), x, m),
            poly::evals_at(right_tables(rows), x, m),
        ) == (LayerRule { rho }).value(poly::evals_at(layer_tables(rows, r, m), x, m)),
{
    let left = poly::evals_at(left_tables(rows), x, m);
    let right = poly::evals_at(right_tables(rows), x, m);
    let v = poly::evals_at(layer_tables(rows, r, m), x, m);
    let l = rows.len() as int;
    let eq = mle::eq_at(r, x) % m;
    let f = |i: int| combination::layer_term(rho[i], eq, left[i], right[i]);
    let g = |i: int| combination::layer_term(rho[i], v[2 * l], v[2 * i], v[2 * i + 1]);
    mle::lemma_chis_len(r);
    arith::lemma_reduced_cong(mle::chis(r), m);
    mle::lemma_eval_cong(arith::reduced(mle::chis(r), m), mle::chis(r), x, x, m);
    mle::lemma_eval_chis(r, x);
    lemma_eq_symmetric(r, x);
    assert forall|i: int| 0 <= i < l implies #[trigger] f(i) == g(i) by {
        lemma_layer_tables(rows, r, i, m);
    }
    arith::lemma_sum_ext(rows.len(), f, g);
    assert(factors_sum(rho, eq, left, right) == arith::sum(rows.len(), f));
    assert(LayerRule { rho }.value(v) == arith::sum(rows.len(), g));
}

/// `eq(x, y)` and `eq(y, x)` are the same.
proof fn lemma_eq_symmetric(x: Seq<int>, y: Seq<int>)
    requires
        x.len() == y.len(),
    ensures
        mle::eq_at(x, y) == mle::eq_at(y, x),
    decreases x.len(),
{
    if x.len() > 0 {
        lemma_eq_symmetric(x.drop_last(), y.drop_last());
        let (a, b) = (x.last(), y.last());
        assert(a * b == b * a) by (nonlinear_arith);
        assert((1 - a) * (1 - b) == (1 - b) * (1 - a)) by (nonlinear_arith);
    }
}

impl<F: JoltField> BatchedDenseGrandProductLayer<F> {
    /// The representatives of the entries.
    pub open spec fn view(&self) -> Seq<Seq<int>> {
        field::rows(self.layers@)
    }

    /// The layers are polynomials with `n` variables.
    pub open spec fn has_vars(&self, n: nat) -> bool {
        &&& poly::tables_have_vars(self@, n)
        &&& self.layer_len == pow2(n)
    }

    /// The layers with the entries `values`.
    pub fn new(values: Vec<Vec<F>>) -> (r: Self)
        requires
            values@.len() > 0,
        ensures
            r.layers == values,
            r.layer_len == values@[0]@.len(),
    {
        let layer_len = values[0].len();
        BatchedDenseGrandProductLayer { layers: values, layer_len }
    }

    /// The polynomials of the sum-check, but for `eq(r, x)`.
    fn factor_polys(&self, Ghost(n): Ghost<nat>) -> (r: Vec<DensePolynomial<F>>)
        requires
            self.has_vars(n + 1),
        ensures
            r@.len() == 2 * self@.len(),
            poly::all_have_vars(r@, n),
            forall|j: int|
                0 <= j < r@.len() ==> (#[trigger] r@[j])@ == if j % 2 == 0 {
                    mle::evens(self@[j / 2])
                } else {
                    mle::odds(self@[j / 2])
                },
    {
        let half: usize = self.layer_len / 2;
        let ghost rows = self@;
        proof {
            mle::lemma_halves(n + 1);
            math::lemma_log2_pow2(n);
        }
        let mut polys: Vec<DensePolynomial<F>> = Vec::new();
        let mut i: usize = 0;
        while i < self.layers.len()
            invariant
                i <= self.layers@.len(),
                rows == self@,
                self.has_vars(n + 1),
                half == pow2(n),
                2 * half == self.layer_len,
                math::log2(half as int) == n,
                polys@.len() == 2 * i,
                poly::all_have_vars(polys@, n),
                forall|j: int|
                    0 <= j < 2 * i ==> (#[trigger] polys@[j])@ == if j % 2 == 0 {
                        mle::evens(rows[j / 2])
                    } else {
                        mle::odds(rows[j / 2])
                    },
            decreases self.layers@.len() - i,
        {
            let row = &self.layers[i];
            let ghost before = polys@;
            let mut left: Vec<F> = Vec::new();
            let mut right: Vec<F> = Vec::new();
            let mut j: usize = 0;
            assert(rows[i as int].len() == 2 * half);
            while j < half
                invariant
                    j <= half,
                    2 * half == row@.len(),
                    2 * half == self.layer_len,
                    left@.len() == j,
                    right@.len() == j,
                    forall|k: int| 0 <= k < j ==> (#[trigger] left@[k])@ == row@[2 * k]@,
                    forall|k: int| 0 <= k < j ==> (#[trigger] right@[k])@ == row@[2 * k + 1]@,
                decreases half - j,
            {
                left.push(row[2 * j]);
                right.push(row[2 * j + 1]);
                j = j + 1;
            }
            proof {
                assert(field::values(left@) =~= mle::evens(rows[i as int]));
                assert(field::values(right@) =~= mle::odds(rows[i as int]));
            }
            polys.push(DensePolynomial::new(left));
            polys.push(DensePolynomial::new(right));
            proof {
                assert forall|j: int| 0 <= j < 2 * (i + 1) implies {
                    &&& (#[trigger] polys@[j])@ == if j % 2 == 0 {
                        mle::evens(rows[j / 2])
                    } else {
                        mle::odds(rows[j / 2])
                    }
                    &&& polys@[j].has_vars(n)
                } by {
                    if j < 2 * i {
                        assert(polys@[j] == before[j]);
                    } else if j == 2 * i {
                        assert(j % 2 == 0 && j / 2 == i);
                    } else {
                        assert(j % 2 == 1 && j / 2 == i);
                    }
                }
            }
            i = i + 1;
        }
        polys
    }

    /// The polynomials of the sum-check for claims at the point `r`.
    fn sumcheck_polys(&self, r: &Vec<F>) -> (polys: Vec<DensePolynomial<F>>)
        requires
            self.has_vars(r@.len() + 1),
        ensures
            poly::tables(polys@) == layer_tables(self@, field::values(r@), F::modulus()),
            poly::all_have_vars(polys@, r@.len()),
    {
        let ghost n = r@.len();
        let ghost l = self@.len();
        let ghost t = layer_tables(self@, field::values(r@), F::modulus());
        proof {
            mle::lemma_halves(n + 1);
            math::lemma_log2_pow2(n);
        }
        let mut polys = self.factor_polys(Ghost(n));
        let ghost factors = polys@;
        polys.push(DensePolynomial::new(EqPolynomial::evals(r.as_slice())));
        proof {
            assert forall|j: int| 0 <= j < t.len() implies polys@[j]@ == #[trigger] t[j] by {
                if j < 2 * l {
                    assert(polys@[j] == factors[j]);
                }
            }
            assert(poly::tables(polys@) =~= t);
            assert forall|j: int| 0 <= j < polys@.len() implies (#[trigger] polys@[j]).has_vars(
                n,
            ) by {
                if j < 2 * l {
                    assert(polys@[j] == factors[j]);
                }
            }
        }
        polys
    }

    /// Proves `claims` on the values at `r_grand_product` of the layer above this one.
    ///
    /// Moves the claims to this layer and a new random point. Binds this layer to the
    /// challenges of the sum-check, which leaves one left and one right factor for each
    /// grand product.
    pub fn prove_layer(
        &mut self,
        claims: &mut Vec<F>,
        r_grand_product: &mut Vec<F>,
        transcript: &mut ProofTranscript,
    ) -> (r: BatchedGrandProductLayerProof<F>)
        requires
            old(self)@.len() > 0,
            old(self).has_vars(old(r_grand_product)@.len() + 1),
            field::values(old(claims)@) == poly::evals_at(
                next_layer(old(self)@, F::modulus()),
                field::values(old(r_grand_product)@),
                F::modulus(),
            ),
        ensures
            ({
                let l = old(self)@.len();
                let state = old(transcript)@;
                &&& r.proves(old(self)@, field::values(old(r_grand_product)@), state)
                &&& field::values(final(r_grand_product)@) == r.next_point(state, l)
                &&& final(r_grand_product)@.len() == old(r_grand_product)@.len() + 1
                &&& field::values(final(claims)@) == r.next_claims(state, l)
                &&& field::values(final(claims)@) == poly::evals_at(
                    old(self)@,
                    field::values(final(r_grand_product)@),
                    F::modulus(),
                )
                &&& final(transcript)@ == r.next_state(state, l)
                &&& final(self).layer_len == 2
                &&& final(self)@ == r.factors()
                &&& final(self)@.len() == l
                &&& forall|i: int|
                    0 <= i < l ==> #[trigger] final(self)@[i] == seq![
                        r.left_claims@[i]@,
                        r.right_claims@[i]@,
                    ]
            }),
    {
        let ghost rows = self@;
        let ghost m = F::modulus();
        let ghost l = rows.len();
        let ghost n = r_grand_product@.len();
        let ghost point = field::values(r_grand_product@);
        let ghost state = transcript@;
        proof {
            F::lemma_modulus();
            mle::lemma_halves(n + 1);
            math::lemma_log2_pow2(n);
            assert(field::values(claims@).len() == claims@.len());
            assert(claims@.len() == l);
            assert(rows[0].len() == pow2(n + 1));
        }
        let num_rounds = r_grand_product.len();
        let coeffs: Vec<F> = transcript.challenge_vector("rand_coeffs_next_layer", claims.len());
        let ghost rho = field::values(coeffs@);
        let claim = combination::combine(claims.as_slice(), coeffs.as_slice());
        let mut polys = self.sumcheck_polys(r_grand_product);
        let comb = LayerCombination { coeffs };
        proof {
            lemma_layer_total(rows, point, rho, m);
        }
        let (proof, x, evals) = SumcheckInstanceProof::prove_arbitrary(
            &claim,
            num_rounds,
            &mut polys,
            &comb,
            transcript,
        );
        assert(field::values(evals@).len() == evals@.len());
        let (left_claims, right_claims) = split_pairs(&evals, self.layers.len());
        proof {
            lemma_split_evals(
                rows,
                point,
                field::values(x@),
                field::values(evals@),
                field::values(left_claims@),
                field::values(right_claims@),
                m,
            );
        }
        append_pairs(&left_claims, &right_claims, transcript);
        let r_layer: F = transcript.challenge_scalar("challenge_r_layer");
        *claims = line_reduction::line_values(&left_claims, &right_claims, &r_layer);
        let ghost xs = field::values(x@);
        *r_grand_product = x;
        r_grand_product.push(r_layer);
        assert(field::values(r_grand_product@) =~= xs.push(r_layer@));
        proof {
            assert(xs.len() == n);
            lemma_next_claims::<F>(rows, xs, r_layer@);
        }
        self.layers = pair_up(&left_claims, &right_claims);
        self.layer_len = 2;
        assert(self@ =~= Seq::new(
            l,
            |i: int| seq![left_claims@[i]@, right_claims@[i]@],
        ));
        proof {
            reveal(BatchedGrandProductLayerProof::proves);
        }
        BatchedGrandProductLayerProof { proof, left_claims, right_claims }
    }
}

/// The values of the polynomials of the sum-check, split into those of the left and those
/// of the right factors.
proof fn lemma_split_evals(
    rows: Seq<Seq<int>>,
    r: Seq<int>,
    x: Seq<int>,
    evals: Seq<int>,
    left: Seq<int>,
    right: Seq<int>,
    m: int,
)
    requires
        evals == poly::evals_at(layer_tables(rows, r, m), x, m),
        left.len() == rows.len(),
        right.len() == rows.len(),
        forall|i: int| 0 <= i < rows.len() ==> #[trigger] left[i] == evals[2 * i],
        forall|i: int| 0 <= i < rows.len() ==> #[trigger] right[i] == evals[2 * i + 1],
    ensures
        left == poly::evals_at(left_tables(rows), x, m),
        right == poly::evals_at(right_tables(rows), x, m),
{
    let a = poly::evals_at(left_tables(rows), x, m);
    let b = poly::evals_at(right_tables(rows), x, m);
    assert forall|i: int| 0 <= i < rows.len() implies left[i] == a[i] by {
        lemma_layer_tables(rows, r, i, m);
    }
    assert forall|i: int| 0 <= i < rows.len() implies right[i] == b[i] by {
        lemma_layer_tables(rows, r, i, m);
    }
    assert(left =~= a);
    assert(right =~= b);
}

/// The first `2 * l` values, the even ones and the odd ones.
fn split_pairs<F: JoltField>(evals: &Vec<F>, l: usize) -> (r: (Vec<F>, Vec<F>))
    requires
        evals@.len() > 2 * l,
    ensures
        r.0@.len() == l,
        r.1@.len() == l,
        forall|i: int| 0 <= i < l ==> (#[trigger] r.0@[i])@ == evals@[2 * i]@,
        forall|i: int| 0 <= i < l ==> (#[trigger] r.1@[i])@ == evals@[2 * i + 1]@,
{
    let mut left: Vec<F> = Vec::new();
    let mut right: Vec<F> = Vec::new();
    let mut i: usize = 0;
    let len = evals.len();
    while i < l
        invariant
            i <= l,
            len == evals@.len(),
            len > 2 * l,
            left@.len() == i,
            right@.len() == i,
            forall|k: int| 0 <= k < i ==> (#[trigger] left@[k])@ == evals@[2 * k]@,
            forall|k: int| 0 <= k < i ==> (#[trigger] right@[k])@ == evals@[2 * k + 1]@,
        decreases l - i,
    {
        left.push(evals[2 * i]);
        right.push(evals[2 * i + 1]);
        i = i + 1;
    }
    (left, right)
}

/// The rows `[left[i], right[i]]`.
fn pair_up<F: JoltField>(left: &Vec<F>, right: &Vec<F>) -> (r: Vec<Vec<F>>)
    requires
        left@.len() == right@.len(),
    ensures
        field::rows(r@) == Seq::new(left@.len(), |i: int| seq![left@[i]@, right@[i]@]),
{
    let mut r: Vec<Vec<F>> = Vec::new();
    let mut i: usize = 0;
    while i < left.len()
        invariant
            i <= left@.len(),
            left@.len() == right@.len(),
            r@.len() == i,
            forall|k: int|
                0 <= k < i ==> field::values((#[trigger] r@[k])@) == seq![left@[k]@, right@[k]@],
        decreases left@.len() - i,
    {
        let mut row: Vec<F> = Vec::new();
        row.push(left[i]);
        row.push(right[i]);
        assert(field::values(row@) =~= seq![left@[i as int]@, right@[i as int]@]);
        r.push(row);
        i = i + 1;
    }
    assert(field::rows(r@) =~= Seq::new(left@.len(), |i: int| seq![left@[i]@, right@[i]@]));
    r
}

/// Adds the claims on the factors to the transcript.
fn append_pairs<F: JoltField>(left: &Vec<F>, right: &Vec<F>, transcript: &mut ProofTranscript)
    requires
        left@.len() == right@.len(),
    ensures
        final(transcript)@ == pairs_state::<F>(
            old(transcript)@,
            field::values(left@),
            field::values(right@),
        ),
{
    let ghost a = field::values(left@);
    let ghost b = field::values(right@);
    let mut i: usize = 0;
    while i < left.len()
        invariant
            i <= left@.len(),
            left@.len() == right@.len(),
            a == field::values(left@),
            b == field::values(right@),
            transcript@ == pairs_state::<F>(
                old(transcript)@,
                a.take(i as int),
                b.take(i as int),
            ),
        decreases left@.len() - i,
    {
        transcript.append_scalar("sumcheck left claim", &left[i]);
        transcript.append_scalar("sumcheck right claim", &right[i]);
        assert(a.take(i + 1).drop_last() =~= a.take(i as int));
        assert(b.take(i + 1).drop_last() =~= b.take(i as int));
        i = i + 1;
    }
    assert(a.take(a.len() as int) =~= a && b.take(b.len() as int) =~= b);
}

/// The combination of the sum-check of a layer from the claims on the factors.
fn factors_value<F: JoltField>(rho: &Vec<F>, eq: &F, left: &Vec<F>, right: &Vec<F>) -> (r: F)
    requires
        left@.len() == rho@.len(),
        right@.len() == rho@.len(),
    ensures
        r@ == factors_sum(
            field::values(rho@),
            eq@,
            field::values(left@),
            field::values(right@),
        ) % F::modulus(),
{
    let ghost (c, a, b) = (field::values(rho@), field::values(left@), field::values(right@));
    let ghost f = |i: int| combination::layer_term(c[i], eq@, a[i], b[i]);
    let mut acc = F::zero();
    let mut i: usize = 0;
    proof {
        F::lemma_modulus();
        arith::lemma_reduced_fixed(0, F::modulus());
    }
    while i < left.len()
        invariant
            i <= left@.len(),
            left@.len() == rho@.len(),
            right@.len() == rho@.len(),
            c == field::values(rho@),
            a == field::values(left@),
            b == field::values(right@),
            f == |i: int| combination::layer_term(c[i], eq@, a[i], b[i]),
            acc@ == arith::sum(i as nat, f) % F::modulus(),
        decreases left@.len() - i,
    {
        let term = combination::layer_value(&rho[i], eq, &left[i], &right[i]);
        proof {
            sumcheck::lemma_chain::<F>(acc@, arith::sum(i as nat, f), term@, f(i as int));
        }
        acc = acc.add(&term);
        i = i + 1;
    }
    acc
}

impl<F: JoltField> BatchedGrandProductLayerProof<F> {
    /// Verifies the proof of a layer for `claims` at the point `r`.
    ///
    /// Gives the claims on the layer itself, and the point at which they are claimed.
    pub fn verify(&self, claims: &Vec<F>, r: &Vec<F>, transcript: &mut ProofTranscript) -> (out:
        Result<(Vec<F>, Vec<F>), GrandProductError>)
        ensures
            (field::answer(out), final(transcript)@) == self.verdict(
                field::values(claims@),
                field::values(r@),
                old(transcript)@,
            ),
    {
        let coeffs: Vec<F> = transcript.challenge_vector("rand_coeffs_next_layer", claims.len());
        let claim = combination::combine(claims.as_slice(), coeffs.as_slice());
        let (expected, x) = match self.proof.verify(claim, r.len(), transcript) {
            Ok((expected, x)) => (expected, x),
            Err(_) => {
                return Err(GrandProductError::InvalidLayerSumcheck);
            },
        };
        if self.left_claims.len() != claims.len() || self.right_claims.len() != claims.len() {
            return Err(GrandProductError::InvalidLayerClaims);
        }
        append_pairs(&self.left_claims, &self.right_claims, transcript);
        let ghost xs = field::values(x@);
        assert(xs.len() == x@.len() && xs.len() == r@.len());
        assert(field::values(coeffs@).len() == coeffs@.len());
        let eq_eval: F = EqPolynomial::evaluate(r.as_slice(), x.as_slice());
        let result = factors_value(&coeffs, &eq_eval, &self.left_claims, &self.right_claims);
        if !result.equals(&expected) {
            return Err(GrandProductError::InvalidLayerBinding);
        }
        let r_layer: F = transcript.challenge_scalar("challenge_r_layer");
        let next = line_reduction::line_values(&self.left_claims, &self.right_claims, &r_layer);
        let mut point = x;
        point.push(r_layer);
        assert(field::values(point@) =~= xs.push(r_layer@));
        Ok((next, point))
    }
}

} // verus!
