//! The reduction of claims at two points to a claim at one point.
//!
//! The two points differ in one coordinate, the first or the last, which is zero
//! in one point and one in the other. A multilinear polynomial is a line between
//! them. So the values at both points give its value at every point in between, and
//! one opening at a random point of the line stands for both.
use crate::arith;
use crate::commitment::{BatchType, CommitmentScheme};
use crate::field;
use crate::field::JoltField;
use crate::mle;
use crate::poly;
use crate::poly::DensePolynomial;
use crate::errors::QuarkError;
use crate::transcript;
use crate::transcript::ProofTranscript;
use vstd::arithmetic::power2::*;
use vstd::prelude::*;

verus! {

/// The point `(r, t)`, or `(t, r)` if `r` does not stand before `t`.
pub open spec fn extend(r: Seq<int>, is_before: bool, t: int) -> Seq<int> {
    if is_before {
        r.push(t)
    } else {
        seq![t] + r
    }
}

/// The values at `t` of the lines that are `a[i]` at zero and `b[i]` at one.
pub open spec fn line_claims(a: Seq<int>, b: Seq<int>, t: int, m: int) -> Seq<int> {
    Seq::new(
        if a.len() <= b.len() {
            a.len()
        } else {
            b.len()
        },
        |i: int| (a[i] + t * (b[i] - a[i])) % m,
    )
}

/// The state of the transcript after the values at both points.
pub open spec fn line_state<F: JoltField>(state: Seq<u8>, a: Seq<int>, b: Seq<int>) -> Seq<u8> {
    transcript::absorb_scalars::<F>(
        transcript::absorb_scalars::<F>(state, "claims for line reduction 0"@, a),
        "claims for line reduction 1"@,
        b,
    )
}

/// The random coordinate for the values `a` and `b`.
pub open spec fn line_challenge<F: JoltField>(state: Seq<u8>, a: Seq<int>, b: Seq<int>) -> int {
    transcript::challenge::<F>(line_state::<F>(state, a, b), "loading r_star"@)
}

/// The state of the transcript after the reduction.
pub open spec fn after_line<F: JoltField>(state: Seq<u8>, a: Seq<int>, b: Seq<int>) -> Seq<u8> {
    transcript::squeeze(line_state::<F>(state, a, b), "loading r_star"@)
}

/// Between the two points, every polynomial is the line through its values there.
pub proof fn lemma_line_reduction<F: JoltField>(
    t: Seq<Seq<int>>,
    r: Seq<int>,
    is_before: bool,
    x: int,
)
    requires
        poly::tables_have_vars(t, r.len() + 1),
    ensures
        poly::evals_at(t, extend(r, is_before, x), F::modulus()) == line_claims(
            poly::evals_at(t, extend(r, is_before, 0), F::modulus()),
            poly::evals_at(t, extend(r, is_before, 1), F::modulus()),
            x,
            F::modulus(),
        ),
{
    F::lemma_modulus();
    let m = F::modulus();
    let a = poly::evals_at(t, extend(r, is_before, 0), m);
    let b = poly::evals_at(t, extend(r, is_before, 1), m);
    let left = poly::evals_at(t, extend(r, is_before, x), m);
    let right = line_claims(a, b, x, m);
    assert forall|i: int| 0 <= i < t.len() implies left[i] == right[i] by {
        assert(t[i].len() == pow2(r.len() + 1));
        if is_before {
            mle::lemma_eval_push(t[i], r, x);
        } else {
            mle::lemma_eval_prepend(t[i], r, x);
        }
        let v0 = mle::eval(t[i], extend(r, is_before, 0));
        let v1 = mle::eval(t[i], extend(r, is_before, 1));
        arith::lemma_reduce(v0, m);
        arith::lemma_reduce(v1, m);
        arith::lemma_cong_line(v0 % m, v0, v1 % m, v1, x, x, m);
    }
    assert(left =~= right);
}

/// There is a value on each line whose two ends are given.
pub proof fn lemma_line_claims(a: Seq<int>, b: Seq<int>, t: int, i: int, m: int)
    requires
        0 <= i < a.len(),
        i < b.len(),
    ensures
        line_claims(a, b, t, m).len() == (if a.len() <= b.len() {
            a.len()
        } else {
            b.len()
        }),
        line_claims(a, b, t, m)[i] == (a[i] + t * (b[i] - a[i])) % m,
{
}

/// Reductions of different values do not lead to the same state, or else they give a collision
/// of the hash function. So the random coordinate depends on all values at both points, and
/// on all that went before them.
pub proof fn lemma_line_binds<F: JoltField>(
    s1: Seq<u8>,
    s2: Seq<u8>,
    a1: Seq<int>,
    b1: Seq<int>,
    a2: Seq<int>,
    b2: Seq<int>,
) -> (c: (Seq<u8>, Seq<u8>))
    requires
        a1.len() == a2.len(),
        b1.len() == b2.len(),
        field::canonical::<F>(a1),
        field::canonical::<F>(b1),
        field::canonical::<F>(a2),
        field::canonical::<F>(b2),
        s1 != s2 || a1 != a2 || b1 != b2,
        after_line::<F>(s1, a1, b1) == after_line::<F>(s2, a2, b2),
    ensures
        transcript::collides(c.0, c.1),
{
    let first = "claims for line reduction 0"@;
    let second = "claims for line reduction 1"@;
    let (p, q) = (
        transcript::absorb_scalars::<F>(s1, first, a1),
        transcript::absorb_scalars::<F>(s2, first, a2),
    );
    let (x, y) = (line_state::<F>(s1, a1, b1), line_state::<F>(s2, a2, b2));
    if x != y {
        transcript::lemma_squeeze_binds(x, y, "loading r_star"@)
    } else if p != q || b1 != b2 {
        transcript::lemma_absorb_scalars_binds::<F>(p, q, second, b1, b2)
    } else {
        transcript::lemma_absorb_scalars_binds::<F>(s1, s2, first, a1, a2)
    }
}

/// The random coordinate is read from the state after the reduction, which follows the values
/// at both points.
pub proof fn lemma_line_challenge<F: JoltField>(state: Seq<u8>, a: Seq<int>, b: Seq<int>)
    ensures
        after_line::<F>(state, a, b) == transcript::squeeze(
            transcript::absorb_scalars::<F>(
                transcript::absorb_scalars::<F>(state, "claims for line reduction 0"@, a),
                "claims for line reduction 1"@,
                b,
            ),
            "loading r_star"@,
        ),
        line_challenge::<F>(state, a, b) == F::decoding(after_line::<F>(state, a, b)),
{
}

/// Claims at the two points that are not those of a polynomial, but are reduced to its value:
/// the random coordinate is where two different lines meet.
pub open spec fn lucky_line(a: int, b: int, v0: int, v1: int, t: int, m: int) -> bool {
    &&& !(arith::cong(a, v0, m) && arith::cong(b, v1, m))
    &&& arith::cong(a + t * (b - a), v0 + t * (v1 - v0), m)
}

/// Two different lines meet at one coordinate at most: if they meet at two that differ by a
/// number with an inverse, they are the same line.
pub proof fn lemma_lines_meet_once(
    a: int,
    b: int,
    v0: int,
    v1: int,
    t: int,
    u: int,
    inverse: int,
    m: int,
)
    requires
        m > 1,
        (inverse * (t - u)) % m == 1,
        arith::cong(a + t * (b - a), v0 + t * (v1 - v0), m),
        arith::cong(a + u * (b - a), v0 + u * (v1 - v0), m),
    ensures
        arith::cong(a, v0, m),
        arith::cong(b, v1, m),
{
    let (d, e) = (b - a, v1 - v0);
    arith::lemma_cong_sub(a + t * d, v0 + t * e, a + u * d, v0 + u * e, m);
    assert((a + t * d) - (a + u * d) == (t - u) * d) by (nonlinear_arith);
    assert((v0 + t * e) - (v0 + u * e) == (t - u) * e) by (nonlinear_arith);
    arith::lemma_cong_mul(inverse, inverse, (t - u) * d, (t - u) * e, m);
    let w = inverse * (t - u);
    assert(inverse * ((t - u) * d) == w * d) by (nonlinear_arith)
        requires
            w == inverse * (t - u),
    ;
    assert(inverse * ((t - u) * e) == w * e) by (nonlinear_arith)
        requires
            w == inverse * (t - u),
    ;
    arith::lemma_reduced_fixed(1, m);
    arith::lemma_cong_mul(w, 1, d, d, m);
    arith::lemma_cong_mul(w, 1, e, e, m);
    arith::lemma_cong_mul(t, t, d, e, m);
    arith::lemma_cong_sub(a + t * d, v0 + t * e, t * d, t * e, m);
    arith::lemma_cong_add(a, v0, d, e, m);
}

/// The point `(r, t)`, or `(t, r)` if `r` does not stand before `t`.
fn extend_point<F: JoltField>(r: &[F], is_before: bool, t: F) -> (out: Vec<F>)
    ensures
        field::values(out@) == extend(field::values(r@), is_before, t@),
{
    if is_before {
        let mut out = field::copy_of(r);
        out.push(t);
        assert(field::values(out@) =~= field::values(r@).push(t@));
        out
    } else {
        let mut out: Vec<F> = Vec::new();
        let mut rest = field::copy_of(r);
        out.push(t);
        out.append(&mut rest);
        assert(field::values(out@) =~= seq![t@] + field::values(r@));
        out
    }
}

/// Reduces the values of the polynomials at `(r, 0)` and `(r, 1)` to their values
/// at `(r, t)`, for a random `t`.
///
/// Gives the point `(r, t)` with the values there, and the values at the two points.
/// If `is_before` is false, the points are `(0, r)`, `(1, r)` and `(t, r)`.
pub fn line_reduce<F: JoltField>(
    r: &[F],
    is_before: bool,
    f_polys: &[DensePolynomial<F>],
    transcript: &mut ProofTranscript,
) -> (out: ((Vec<F>, Vec<F>), (Vec<F>, Vec<F>)))
    requires
        pow2(r@.len() + 1) <= usize::MAX,
        poly::all_have_vars(f_polys@, r@.len() + 1),
    ensures
        ({
            let m = F::modulus();
            let p = field::values(r@);
            let t = poly::tables(f_polys@);
            let a = poly::evals_at(t, extend(p, is_before, 0), m);
            let b = poly::evals_at(t, extend(p, is_before, 1), m);
            let x = line_challenge::<F>(old(transcript)@, a, b);
            let inner = transcript::absorb_scalars::<F>(
                old(transcript)@,
                "claims for line reduction 0"@,
                a,
            );
            let sent = transcript::absorb_scalars::<F>(inner, "claims for line reduction 1"@, b);
            let drawn = transcript::squeeze(sent, "loading r_star"@);
            &&& x == F::decoding(drawn)
            &&& final(transcript)@ == drawn
            &&& a == poly::evals_at(
                t,
                if is_before {
                    p.push(0)
                } else {
                    seq![0int] + p
                },
                m,
            )
            &&& b == poly::evals_at(
                t,
                if is_before {
                    p.push(1)
                } else {
                    seq![1int] + p
                },
                m,
            )
            &&& field::values(out.0.0@) == if is_before {
                p.push(x)
            } else {
                seq![x] + p
            }
            &&& field::values(out.1.0@) == a
            &&& field::values(out.1.1@) == b
            &&& field::values(out.0.0@) == extend(p, is_before, x)
            &&& field::values(out.0.1@) == poly::evals_at(t, extend(p, is_before, x), m)
            &&& field::values(out.0.1@) == line_claims(a, b, x, m)
            &&& final(transcript)@ == after_line::<F>(old(transcript)@, a, b)
        }),
{
    let r_0 = extend_point(r, is_before, F::zero());
    let r_1 = extend_point(r, is_before, F::one());
    let ghost p = field::values(r@);
    assert(field::values(r_0@).len() == r_0@.len() && field::values(r_1@).len() == r_1@.len());
    let openings_0 = poly::evaluate_all(f_polys, r_0.as_slice());
    let openings_1 = poly::evaluate_all(f_polys, r_1.as_slice());
    transcript.append_scalars("claims for line reduction 0", openings_0.as_slice());
    transcript.append_scalars("claims for line reduction 1", openings_1.as_slice());
    let rand: F = transcript.challenge_scalar("loading r_star");
    let r_star = extend_point(r, is_before, rand);
    assert(field::values(r_star@).len() == r_star@.len());
    let openings_star = poly::evaluate_all(f_polys, r_star.as_slice());
    proof {
        poly::lemma_tables_have_vars(f_polys@, p.len() + 1);
        lemma_line_reduction::<F>(poly::tables(f_polys@), p, is_before, rand@);
    }
    ((r_star, openings_star), (openings_0, openings_1))
}

/// Opens the polynomials at the points `(r, 0)` and `(r, 1)`, or `(0, r)` and `(1, r)`
/// if `is_before` is false, with one proof.
pub fn open_and_prove<C: CommitmentScheme>(
    r: &[C::Field],
    is_before: bool,
    f_polys: &[DensePolynomial<C::Field>],
    setup: &C::Setup,
    transcript: &mut ProofTranscript,
) -> (out: (Vec<C::Field>, Vec<C::Field>, C::BatchedProof))
    requires
        pow2(r@.len() + 1) <= usize::MAX,
        poly::all_have_vars(f_polys@, r@.len() + 1),
        C::supports(*setup, r@.len() + 1),
    ensures
        ({
            let m = C::Field::modulus();
            let p = field::values(r@);
            let t = poly::tables(f_polys@);
            let a = poly::evals_at(t, extend(p, is_before, 0), m);
            let b = poly::evals_at(t, extend(p, is_before, 1), m);
            let x = line_challenge::<C::Field>(old(transcript)@, a, b);
            let point = extend(p, is_before, x);
            let mid = after_line::<C::Field>(old(transcript)@, a, b);
            let v = poly::evals_at(t, point, m);
            let inner = transcript::absorb_scalars::<C::Field>(
                old(transcript)@,
                "claims for line reduction 0"@,
                a,
            );
            let sent = transcript::absorb_scalars::<C::Field>(inner, "claims for line reduction 1"@, b);
            let drawn = transcript::squeeze(sent, "loading r_star"@);
            &&& x == C::Field::decoding(drawn)
            &&& mid == drawn
            &&& point == if is_before {
                p.push(x)
            } else {
                seq![x] + p
            }
            &&& field::values(out.0@) == a
            &&& field::values(out.1@) == b
            &&& C::opens(*setup, t, point, v, BatchType::Big, mid, out.2)
            &&& final(transcript)@ == C::after_prove(
                *setup,
                t,
                point,
                v,
                BatchType::Big,
                mid,
                out.2,
            )
        }),
{
    let ((r_star, openings_star), (openings_0, openings_1)) = line_reduce(
        r,
        is_before,
        f_polys,
        transcript,
    );
    assert(field::values(r_star@).len() == r_star@.len());
    let proof = C::batch_prove(
        setup,
        f_polys,
        r_star.as_slice(),
        openings_star.as_slice(),
        BatchType::Big,
        transcript,
    );
    (openings_0, openings_1, proof)
}

/// Follows the reduction of the claims `data` at two points, and gives the point and
/// the claims that they are reduced to.
pub fn line_reduce_verify<F: JoltField>(
    data: &(Vec<F>, Vec<F>),
    r: &[F],
    is_before: bool,
    transcript: &mut ProofTranscript,
) -> (out: (Vec<F>, Vec<F>))
    ensures
        ({
            let a = field::values(data.0@);
            let b = field::values(data.1@);
            let x = line_challenge::<F>(old(transcript)@, a, b);
            let inner = transcript::absorb_scalars::<F>(
                old(transcript)@,
                "claims for line reduction 0"@,
                a,
            );
            let sent = transcript::absorb_scalars::<F>(inner, "claims for line reduction 1"@, b);
            let drawn = transcript::squeeze(sent, "loading r_star"@);
            &&& x == F::decoding(drawn)
            &&& final(transcript)@ == drawn
            &&& field::values(out.0@) == if is_before {
                field::values(r@).push(x)
            } else {
                seq![x] + field::values(r@)
            }
            &&& out.1@.len() == if a.len() <= b.len() {
                a.len()
            } else {
                b.len()
            }
            &&& forall|i: int|
                0 <= i < out.1@.len() ==> (#[trigger] out.1@[i])@ == (a[i] + x * (b[i] - a[i]))
                    % F::modulus()
            &&& field::values(out.0@) == extend(field::values(r@), is_before, x)
            &&& field::values(out.1@) == line_claims(a, b, x, F::modulus())
            &&& final(transcript)@ == after_line::<F>(old(transcript)@, a, b)
        }),
{
    transcript.append_scalars("claims for line reduction 0", data.0.as_slice());
    transcript.append_scalars("claims for line reduction 1", data.1.as_slice());
    let rand: F = transcript.challenge_scalar("loading r_star");
    let r_star = extend_point(r, is_before, rand);
    let claimed = line_values(&data.0, &data.1, &rand);
    proof {
        let want = field::values(claimed@);
        assert(want.len() == claimed@.len());
        assert forall|i: int| 0 <= i < claimed@.len() implies (#[trigger] claimed@[i])@
            == want[i] by {}
    }
    (r_star, claimed)
}

/// The values at `t` of the lines that are `a[i]` at zero and `b[i]` at one.
pub fn line_values<F: JoltField>(a: &Vec<F>, b: &Vec<F>, t: &F) -> (r: Vec<F>)
    ensures
        field::values(r@) == line_claims(
            field::values(a@),
            field::values(b@),
            t@,
            F::modulus(),
        ),
{
    let ghost want = line_claims(field::values(a@), field::values(b@), t@, F::modulus());
    let mut r: Vec<F> = Vec::new();
    let mut i: usize = 0;
    while i < a.len() && i < b.len()
        invariant
            i <= a@.len(),
            i <= b@.len(),
            want == line_claims(field::values(a@), field::values(b@), t@, F::modulus()),
            r@.len() == i,
            forall|k: int| 0 <= k < i ==> (#[trigger] r@[k])@ == want[k],
        decreases a@.len() - i,
    {
        let v = a[i].add(&t.mul(&b[i].sub(&a[i])));
        proof {
            poly::lemma_line_value::<F>(a@[i as int]@, b@[i as int]@, t@);
        }
        r.push(v);
        i = i + 1;
    }
    assert(field::values(r@) =~= want);
    r
}

/// Checks the openings at two points that `open_and_prove` gives.
pub fn line_reduce_opening_verify<C: CommitmentScheme>(
    data: &(Vec<C::Field>, Vec<C::Field>, C::BatchedProof),
    r: &[C::Field],
    is_before: bool,
    commitments: &[C::Commitment],
    transcript: &mut ProofTranscript,
    setup: &C::Setup,
) -> (out: Result<(), QuarkError>)
    ensures
        ({
            let a = field::values(data.0@);
            let b = field::values(data.1@);
            let x = line_challenge::<C::Field>(old(transcript)@, a, b);
            let point = extend(field::values(r@), is_before, x);
            let v = line_claims(a, b, x, C::Field::modulus());
            let mid = after_line::<C::Field>(old(transcript)@, a, b);
            let inner = transcript::absorb_scalars::<C::Field>(
                old(transcript)@,
                "claims for line reduction 0"@,
                a,
            );
            let sent = transcript::absorb_scalars::<C::Field>(inner, "claims for line reduction 1"@, b);
            let drawn = transcript::squeeze(sent, "loading r_star"@);
            &&& x == C::Field::decoding(drawn)
            &&& mid == drawn
            &&& point == if is_before {
                field::values(r@).push(x)
            } else {
                seq![x] + field::values(r@)
            }
            &&& out == if C::accepts(data.2, *setup, point, v, commitments@, mid) {
                Ok::<(), QuarkError>(())
            } else {
                Err(QuarkError::InvalidOpeningProof)
            }
            &&& final(transcript)@ == C::after_verify(
                data.2,
                *setup,
                point,
                v,
                commitments@,
                mid,
            )
        }),
{
    let claims = (field::copy_of(data.0.as_slice()), field::copy_of(data.1.as_slice()));
    let (r_star, claimed) = line_reduce_verify(&claims, r, is_before, transcript);
    let res = C::batch_verify(
        &data.2,
        setup,
        r_star.as_slice(),
        claimed.as_slice(),
        commitments,
        transcript,
    );
    match res {
        Ok(_) => Ok(()),
        Err(_) => Err(QuarkError::InvalidOpeningProof),
    }
}

} // verus!
