//! The sum-check protocol for combinations of multilinear polynomials of degree
//! three.
//!
//! A combination takes the values of several polynomials at a vertex of the
//! hypercube to one value. The prover convinces the verifier of the sum of that
//! value over all vertices. In each round it sends the polynomial in the first
//! variable that is left when the others are summed over, and the challenge of
//! the round binds that variable.
use crate::arith;
use crate::errors::ProofVerifyError;
use crate::field;
use crate::field::JoltField;
use crate::mle;
use crate::poly;
use crate::poly::DensePolynomial;
use crate::transcript;
use crate::transcript::ProofTranscript;
use vstd::arithmetic::power2::*;
use vstd::prelude::*;

verus! {

/// The polynomial with the coefficients `c`, the constant one first, at `t`.
pub open spec fn cubic(c: (int, int, int, int), t: int) -> int {
    c.0 + c.1 * t + c.2 * (t * t) + c.3 * (t * t * t)
}

/// A rule that takes the values of several polynomials to one value, of degree at
/// most three.
pub trait Summand: Sized {
    /// The number of polynomials.
    spec fn arity(self) -> nat;

    /// What the rule makes of the values `v`.
    spec fn value(self, v: Seq<int>) -> int;

    /// The coefficients of the rule on the line through `a` and `b`.
    spec fn coeffs(self, a: Seq<int>, b: Seq<int>) -> (int, int, int, int);

    proof fn lemma_cubic(self, a: Seq<int>, b: Seq<int>, t: int)
        requires
            a.len() == self.arity(),
            b.len() == self.arity(),
        ensures
            self.value(mle::line(a, b, t)) == cubic(self.coeffs(a, b), t),
    ;

    proof fn lemma_cong(self, a: Seq<int>, b: Seq<int>, m: int)
        requires
            m > 0,
            a.len() == self.arity(),
            arith::cong_seq(a, b, m),
        ensures
            arith::cong(self.value(a), self.value(b), m),
    ;
}

/// A combination of field elements by a rule.
pub trait Combination<F: JoltField> {
    type Rule: Summand;

    /// The rule.
    spec fn rule(&self) -> Self::Rule;

    fn evaluate(&self, vals: &Vec<F>) -> (r: F)
        requires
            vals@.len() == self.rule().arity(),
        ensures
            r@ == self.rule().value(field::values(vals@)) % F::modulus(),
    ;
}

/// The values of the polynomials with the values `t` at the vertex `x`.
pub open spec fn column(t: Seq<Seq<int>>, x: int) -> Seq<int> {
    Seq::new(t.len(), |k: int| t[k][x])
}

/// The sum of the rule over the hypercube with `n` variables.
pub open spec fn total<S: Summand>(rule: S, t: Seq<Seq<int>>, n: nat) -> int {
    arith::sum(pow2(n), |x: int| rule.value(column(t, x)))
}

/// The sum of the rule when the first of `n` variables is at `s`.
pub open spec fn round_value<S: Summand>(
    rule: S,
    t: Seq<Seq<int>>,
    n: nat,
    s: int,
) -> int {
    let h = pow2((n - 1) as nat);
    arith::sum(h, |x: int| rule.value(mle::line(column(t, x), column(t, h + x), s)))
}

/// The coefficients of the polynomial `round_value`.
pub open spec fn round_coeffs<S: Summand>(
    rule: S,
    t: Seq<Seq<int>>,
    n: nat,
) -> (int, int, int, int) {
    let h = pow2((n - 1) as nat);
    (
        arith::sum(h, |x: int| rule.coeffs(column(t, x), column(t, h + x)).0),
        arith::sum(h, |x: int| rule.coeffs(column(t, x), column(t, h + x)).1),
        arith::sum(h, |x: int| rule.coeffs(column(t, x), column(t, h + x)).2),
        arith::sum(h, |x: int| rule.coeffs(column(t, x), column(t, h + x)).3),
    )
}

/// The message of a round: the coefficients of its polynomial but the linear one.
pub open spec fn message<S: Summand>(
    rule: S,
    t: Seq<Seq<int>>,
    n: nat,
    m: int,
) -> Seq<int> {
    let c = round_coeffs(rule, t, n);
    seq![c.0 % m, c.2 % m, c.3 % m]
}

/// The values of the polynomials when their first variables are bound to `r`.
pub open spec fn bound(t: Seq<Seq<int>>, r: Seq<int>, m: int) -> Seq<Seq<int>>
    decreases r.len(),
{
    if r.len() == 0 {
        t
    } else {
        let u = bound(t, r.drop_last(), m);
        Seq::new(u.len(), |k: int| arith::reduced(mle::bind_first(u[k], r.last()), m))
    }
}

/// The state of the transcript after the messages `msgs`.
pub open spec fn rounds_state<F: JoltField>(state: Seq<u8>, msgs: Seq<Seq<int>>) -> Seq<u8>
    decreases msgs.len(),
{
    if msgs.len() == 0 {
        state
    } else {
        transcript::squeeze(
            transcript::absorb_scalars::<F>(
                rounds_state::<F>(state, msgs.drop_last()),
                "poly"@,
                msgs.last(),
            ),
            "challenge_nextround"@,
        )
    }
}

/// The challenges that answer the messages `msgs`.
pub open spec fn round_challenges<F: JoltField>(state: Seq<u8>, msgs: Seq<Seq<int>>) -> Seq<int> {
    Seq::new(
        msgs.len(),
        |j: int|
            transcript::challenge::<F>(
                transcript::absorb_scalars::<F>(
                    rounds_state::<F>(state, msgs.take(j)),
                    "poly"@,
                    msgs[j],
                ),
                "challenge_nextround"@,
            ),
    )
}

/// The value at `t` of the polynomial with the message `msg` whose values at zero
/// and one add up to `claim`.
pub open spec fn next_claim(msg: Seq<int>, claim: int, t: int) -> int {
    cubic((msg[0], claim - 2 * msg[0] - msg[1] - msg[2], msg[1], msg[2]), t)
}

/// What is left to check of `claim` after the rounds with the messages `msgs` and
/// the challenges `r`.
pub open spec fn running_claim(claim: int, msgs: Seq<Seq<int>>, r: Seq<int>, m: int) -> int
    decreases msgs.len(),
{
    if msgs.len() == 0 {
        claim
    } else {
        next_claim(
            msgs.last(),
            running_claim(claim, msgs.drop_last(), r.drop_last(), m),
            r.last(),
        ) % m
    }
}

/// There are `n` messages, each of three coefficients.
pub open spec fn well_shaped(msgs: Seq<Seq<int>>, n: nat) -> bool {
    &&& msgs.len() == n
    &&& forall|j: int| 0 <= j < n ==> (#[trigger] msgs[j]).len() == 3
}

/// The messages are those that the protocol prescribes for the polynomials with
/// the values `t`.
pub open spec fn honest<S: Summand>(
    rule: S,
    t: Seq<Seq<int>>,
    n: nat,
    msgs: Seq<Seq<int>>,
    r: Seq<int>,
    m: int,
) -> bool {
    &&& msgs.len() == n
    &&& r.len() == n
    &&& forall|j: int|
        0 <= j < n ==> #[trigger] msgs[j] == message(
            rule,
            bound(t, r.take(j), m),
            (n - j) as nat,
            m,
        )
}

/// A message of the prover: a polynomial of degree three without its linear
/// coefficient.
pub struct CompressedUniPoly<F: JoltField> {
    pub coeffs_except_linear_term: Vec<F>,
}

/// A sum-check proof: one message for each round.
pub struct SumcheckInstanceProof<F: JoltField> {
    pub compressed_polys: Vec<CompressedUniPoly<F>>,
}

/// A sum of polynomials of degree three, coefficient by coefficient.
pub proof fn lemma_sum_cubic(
    n: nat,
    f: spec_fn(int) -> int,
    f0: spec_fn(int) -> int,
    f1: spec_fn(int) -> int,
    f2: spec_fn(int) -> int,
    f3: spec_fn(int) -> int,
    t: int,
)
    requires
        forall|x: int| 0 <= x < n ==> #[trigger] f(x) == cubic((f0(x), f1(x), f2(x), f3(x)), t),
    ensures
        arith::sum(n, f) == cubic(
            (arith::sum(n, f0), arith::sum(n, f1), arith::sum(n, f2), arith::sum(n, f3)),
            t,
        ),
    decreases n,
{
    if n > 0 {
        let k = (n - 1) as nat;
        lemma_sum_cubic(k, f, f0, f1, f2, f3, t);
        let (a0, a1, a2, a3) = (
            arith::sum(k, f0),
            arith::sum(k, f1),
            arith::sum(k, f2),
            arith::sum(k, f3),
        );
        let (b0, b1, b2, b3) = (f0(n - 1), f1(n - 1), f2(n - 1), f3(n - 1));
        assert(f(n - 1) == cubic((b0, b1, b2, b3), t));
        let t2 = t * t;
        let t3 = t * t * t;
        assert((a0 + a1 * t + a2 * t2 + a3 * t3) + (b0 + b1 * t + b2 * t2 + b3 * t3) == (a0 + b0)
            + (a1 + b1) * t + (a2 + b2) * t2 + (a3 + b3) * t3) by (nonlinear_arith);
    } else {
        assert(0 * t == 0 && 0 * (t * t) == 0 && 0 * (t * t * t) == 0);
    }
}

/// The sum of a round is a polynomial of degree three in its variable.
proof fn lemma_round_cubic<S: Summand>(
    rule: S,
    t: Seq<Seq<int>>,
    n: nat,
    s: int,
)
    requires
        n > 0,
        t.len() == rule.arity(),
    ensures
        round_value(rule, t, n, s) == cubic(round_coeffs(rule, t, n), s),
{
    let h = pow2((n - 1) as nat);
    let f = |x: int| rule.value(mle::line(column(t, x), column(t, h + x), s));
    let f0 = |x: int| rule.coeffs(column(t, x), column(t, h + x)).0;
    let f1 = |x: int| rule.coeffs(column(t, x), column(t, h + x)).1;
    let f2 = |x: int| rule.coeffs(column(t, x), column(t, h + x)).2;
    let f3 = |x: int| rule.coeffs(column(t, x), column(t, h + x)).3;
    assert forall|x: int| 0 <= x < h implies #[trigger] f(x) == cubic(
        (f0(x), f1(x), f2(x), f3(x)),
        s,
    ) by {
        rule.lemma_cubic(column(t, x), column(t, h + x), s);
    }
    lemma_sum_cubic(h, f, f0, f1, f2, f3, s);
}

/// The sum over the hypercube is the sum of the values of the round at zero and one.
proof fn lemma_round_splits<S: Summand>(rule: S, t: Seq<Seq<int>>, n: nat)
    requires
        n > 0,
    ensures
        total(rule, t, n) == round_value(rule, t, n, 0) + round_value(rule, t, n, 1),
{
    let h = pow2((n - 1) as nat);
    mle::lemma_halves(n);
    let f = |x: int| rule.value(column(t, x));
    arith::lemma_sum_split(h, h, f);
    let low = |x: int| rule.value(mle::line(column(t, x), column(t, h + x), 0));
    let high = |x: int| rule.value(mle::line(column(t, x), column(t, h + x), 1));
    let tail = |x: int| f(h + x);
    assert forall|x: int| 0 <= x < h implies #[trigger] f(x) == low(x) by {
        assert(mle::line(column(t, x), column(t, h + x), 0) =~= column(t, x));
    }
    assert forall|x: int| 0 <= x < h implies #[trigger] tail(x) == high(x) by {
        assert(mle::line(column(t, x), column(t, h + x), 1) =~= column(t, h + x));
    }
    arith::lemma_sum_ext(h, f, low);
    arith::lemma_sum_ext(h, tail, high);
}

/// Binding the variable of a round to `s` leaves the sum that the round has at `s`.
proof fn lemma_round_binds<S: Summand>(
    rule: S,
    t: Seq<Seq<int>>,
    r: Seq<int>,
    n: nat,
    m: int,
)
    requires
        m > 0,
        n > 0,
        r.len() > 0,
        t.len() == rule.arity(),
        bound(t, r.drop_last(), m).len() == t.len(),
        poly::tables_have_vars(bound(t, r.drop_last(), m), n),
    ensures
        poly::tables_have_vars(bound(t, r, m), (n - 1) as nat),
        arith::cong(
            total(rule, bound(t, r, m), (n - 1) as nat),
            round_value(rule, bound(t, r.drop_last(), m), n, r.last()),
            m,
        ),
{
    let u = bound(t, r.drop_last(), m);
    let w = bound(t, r, m);
    let h = pow2((n - 1) as nat);
    let s = r.last();
    mle::lemma_halves(n);
    let f = |x: int| rule.value(column(w, x));
    let g = |x: int| rule.value(mle::line(column(u, x), column(u, h + x), s));
    assert forall|k: int| 0 <= k < w.len() implies (#[trigger] w[k]).len() == h by {
        assert(u[k].len() == pow2(n));
    }
    assert forall|x: int| 0 <= x < h implies arith::cong(#[trigger] f(x), g(x), m) by {
        let a = column(w, x);
        let b = mle::line(column(u, x), column(u, h + x), s);
        assert forall|k: int| 0 <= k < a.len() implies arith::cong(#[trigger] a[k], b[k], m) by {
            assert(u[k].len() == pow2(n));
            assert(w[k] == arith::reduced(mle::bind_first(u[k], s), m));
            arith::lemma_reduce(mle::bind_first(u[k], s)[x], m);
        }
        rule.lemma_cong(a, b, m);
    }
    arith::lemma_sum_cong(h, f, g, m);
}

/// Binding all variables in turn gives the values of the polynomials.
proof fn lemma_bound_evals(t: Seq<Seq<int>>, r: Seq<int>, j: nat, m: int)
    requires
        m > 0,
        j <= r.len(),
        poly::tables_have_vars(t, r.len()),
    ensures
        bound(t, r.take(j as int), m).len() == t.len(),
        poly::tables_have_vars(bound(t, r.take(j as int), m), (r.len() - j) as nat),
        forall|k: int|
            #![trigger t[k]]
            0 <= k < t.len() ==> arith::cong(
                mle::eval(bound(t, r.take(j as int), m)[k], r.skip(j as int)),
                mle::eval(t[k], r),
                m,
            ),
    decreases j,
{
    let w = bound(t, r.take(j as int), m);
    if j == 0 {
        assert(r.skip(0) =~= r);
    } else {
        let i = (j - 1) as nat;
        lemma_bound_evals(t, r, i, m);
        assert(r.take(j as int).drop_last() =~= r.take(i as int));
        let u = bound(t, r.take(i as int), m);
        let n = (r.len() - i) as nat;
        mle::lemma_halves(n);
        assert forall|k: int| 0 <= k < t.len() implies (#[trigger] w[k]).len() == pow2(
            (n - 1) as nat,
        ) by {
            assert(u[k].len() == pow2(n));
        }
        assert forall|k: int|
            #![trigger t[k]]
            0 <= k < t.len() implies arith::cong(
            mle::eval(w[k], r.skip(j as int)),
            mle::eval(t[k], r),
            m,
        ) by {
            assert(u[k].len() == pow2(n));
            let s = r.skip(i as int);
            assert(s.drop_first() =~= r.skip(j as int));
            let b = mle::bind_first(u[k], s[0]);
            arith::lemma_reduced_cong(b, m);
            mle::lemma_eval_cong(w[k], b, r.skip(j as int), r.skip(j as int), m);
        }
    }
}

/// The values that are left when all variables are bound.
pub proof fn lemma_bound_all(t: Seq<Seq<int>>, r: Seq<int>, m: int)
    requires
        m > 0,
        poly::tables_have_vars(t, r.len()),
    ensures
        bound(t, r, m).len() == t.len(),
        poly::tables_have_vars(bound(t, r, m), 0),
        arith::cong_seq(column(bound(t, r, m), 0), poly::evals_at(t, r, m), m),
{
    lemma_bound_evals(t, r, r.len(), m);
    assert(r.take(r.len() as int) =~= r);
    let w = bound(t, r, m);
    let a = column(w, 0);
    let b = poly::evals_at(t, r, m);
    assert forall|k: int| 0 <= k < a.len() implies arith::cong(#[trigger] a[k], b[k], m) by {
        assert(arith::cong(mle::eval(w[k], r.skip(r.len() as int)), mle::eval(t[k], r), m));
        arith::lemma_reduce(mle::eval(t[k], r), m);
    }
}

proof fn lemma_cubic_small(c: (int, int, int, int))
    ensures
        cubic(c, 0) == c.0,
        cubic(c, 1) == c.0 + c.1 + c.2 + c.3,
        cubic(c, 2) == c.0 + 2 * c.1 + 4 * c.2 + 8 * c.3,
        cubic(c, 3) == c.0 + 3 * c.1 + 9 * c.2 + 27 * c.3,
{
    assert(0int * 0 == 0 && 0int * 0 * 0 == 0);
    assert(1int * 1 == 1 && 1int * 1 * 1 == 1);
    assert(2int * 2 == 4 && 2int * 2 * 2 == 8);
    assert(3int * 3 == 9 && 3int * 3 * 3 == 27);
}

proof fn lemma_cubic_cong(c: (int, int, int, int), d: (int, int, int, int), t: int, m: int)
    requires
        m > 0,
        arith::cong(c.0, d.0, m),
        arith::cong(c.1, d.1, m),
        arith::cong(c.2, d.2, m),
        arith::cong(c.3, d.3, m),
    ensures
        arith::cong(cubic(c, t), cubic(d, t), m),
{
    arith::lemma_cong_mul(c.1, d.1, t, t, m);
    arith::lemma_cong_mul(c.2, d.2, t * t, t * t, m);
    arith::lemma_cong_mul(c.3, d.3, t * t * t, t * t * t, m);
    arith::lemma_cong_add(c.0, d.0, c.1 * t, d.1 * t, m);
    arith::lemma_cong_add(c.0 + c.1 * t, d.0 + d.1 * t, c.2 * (t * t), d.2 * (t * t), m);
    arith::lemma_cong_add(
        c.0 + c.1 * t + c.2 * (t * t),
        d.0 + d.1 * t + d.2 * (t * t),
        c.3 * (t * t * t),
        d.3 * (t * t * t),
        m,
    );
}

/// An honest message takes a true claim on the sum to a true claim on the sum that
/// is left.
proof fn lemma_honest_round<S: Summand>(
    rule: S,
    t: Seq<Seq<int>>,
    n: nat,
    claim: int,
    s: int,
    m: int,
)
    requires
        m > 0,
        n > 0,
        t.len() == rule.arity(),
        arith::cong(claim, total(rule, t, n), m),
    ensures
        arith::cong(
            next_claim(message(rule, t, n, m), claim, s),
            round_value(rule, t, n, s),
            m,
        ),
{
    let c = round_coeffs(rule, t, n);
    let msg = message(rule, t, n, m);
    lemma_round_splits(rule, t, n);
    lemma_round_cubic(rule, t, n, 0);
    lemma_round_cubic(rule, t, n, 1);
    lemma_round_cubic(rule, t, n, s);
    arith::lemma_reduce(c.0, m);
    arith::lemma_reduce(c.2, m);
    arith::lemma_reduce(c.3, m);
    let k = 2 * msg[0] + msg[1] + msg[2];
    let l = 2 * c.0 + c.2 + c.3;
    arith::lemma_cong_add(msg[0], c.0, msg[0], c.0, m);
    arith::lemma_cong_add(msg[0] + msg[0], c.0 + c.0, msg[1], c.2, m);
    arith::lemma_cong_add(msg[0] + msg[0] + msg[1], c.0 + c.0 + c.2, msg[2], c.3, m);
    assert(arith::cong(k, l, m));
    lemma_cubic_small(c);
    arith::lemma_cong_sub(claim, total(rule, t, n), k, l, m);
    lemma_cubic_cong((msg[0], claim - k, msg[1], msg[2]), c, s, m);
}

/// The claim that honest rounds leave is true of the polynomials at the challenges.
pub proof fn lemma_honest_rounds<S: Summand>(
    rule: S,
    t: Seq<Seq<int>>,
    n: nat,
    msgs: Seq<Seq<int>>,
    r: Seq<int>,
    claim: int,
    m: int,
)
    requires
        m > 0,
        t.len() == rule.arity(),
        poly::tables_have_vars(t, n),
        honest(rule, t, n, msgs, r, m),
        arith::cong(claim, total(rule, t, n), m),
    ensures
        arith::cong(
            running_claim(claim, msgs, r, m),
            rule.value(poly::evals_at(t, r, m)),
            m,
        ),
{
    lemma_honest_prefix(rule, t, n, msgs, r, claim, n, m);
    assert(msgs.take(n as int) =~= msgs && r.take(n as int) =~= r);
    let w = bound(t, r, m);
    lemma_bound_all(t, r, m);
    lemma2_to64();
    let f = |x: int| rule.value(column(w, x));
    assert(arith::sum(0, f) == 0);
    assert(arith::sum(1, f) == f(0));
    rule.lemma_cong(column(w, 0), poly::evals_at(t, r, m), m);
}

proof fn lemma_honest_prefix<S: Summand>(
    rule: S,
    t: Seq<Seq<int>>,
    n: nat,
    msgs: Seq<Seq<int>>,
    r: Seq<int>,
    claim: int,
    j: nat,
    m: int,
)
    requires
        m > 0,
        j <= n,
        t.len() == rule.arity(),
        poly::tables_have_vars(t, n),
        honest(rule, t, n, msgs, r, m),
        arith::cong(claim, total(rule, t, n), m),
    ensures
        arith::cong(
            running_claim(claim, msgs.take(j as int), r.take(j as int), m),
            total(rule, bound(t, r.take(j as int), m), (n - j) as nat),
            m,
        ),
    decreases j,
{
    if j > 0 {
        let i = (j - 1) as nat;
        lemma_honest_prefix(rule, t, n, msgs, r, claim, i, m);
        assert(r.take(j as int).drop_last() =~= r.take(i as int));
        assert(msgs.take(j as int).drop_last() =~= msgs.take(i as int));
        let u = bound(t, r.take(i as int), m);
        lemma_bound_evals(t, r, i, m);
        let e = running_claim(claim, msgs.take(i as int), r.take(i as int), m);
        let left = (n - i) as nat;
        assert(msgs[i as int] == message(rule, u, left, m));
        lemma_honest_round(rule, u, left, e, r[i as int], m);
        lemma_round_binds(rule, t, r.take(j as int), left, m);
        arith::lemma_reduce(next_claim(msgs[i as int], e, r[i as int]), m);
    }
}

/// In the round `j` the claim is false, and so is the message: its polynomial is not that
/// of the round. But the challenge is a point at which the two polynomials meet.
pub open spec fn lucky_round<S: Summand>(
    rule: S,
    t: Seq<Seq<int>>,
    n: nat,
    msgs: Seq<Seq<int>>,
    r: Seq<int>,
    claim: int,
    j: int,
    m: int,
) -> bool {
    let u = bound(t, r.take(j), m);
    let c = running_claim(claim, msgs.take(j), r.take(j), m);
    let left = (n - j) as nat;
    &&& 0 <= j < n
    &&& !arith::cong(
        next_claim(msgs[j], c, 0) + next_claim(msgs[j], c, 1),
        round_value(rule, u, left, 0) + round_value(rule, u, left, 1),
        m,
    )
    &&& arith::cong(next_claim(msgs[j], c, r[j]), round_value(rule, u, left, r[j]), m)
}

/// Some round is lucky.
pub open spec fn was_lucky<S: Summand>(
    rule: S,
    t: Seq<Seq<int>>,
    n: nat,
    msgs: Seq<Seq<int>>,
    r: Seq<int>,
    claim: int,
    m: int,
) -> bool {
    exists|j: int| lucky_round(rule, t, n, msgs, r, claim, j, m)
}

/// If the claim that is left is true of the polynomials at the challenges, then the claim
/// on the sum was true, or there was a lucky round.
pub proof fn lemma_sumcheck_soundness<S: Summand>(
    rule: S,
    t: Seq<Seq<int>>,
    n: nat,
    msgs: Seq<Seq<int>>,
    r: Seq<int>,
    claim: int,
    m: int,
)
    requires
        m > 0,
        t.len() == rule.arity(),
        poly::tables_have_vars(t, n),
        msgs.len() == n,
        r.len() == n,
        arith::cong(running_claim(claim, msgs, r, m), rule.value(poly::evals_at(t, r, m)), m),
    ensures
        arith::cong(claim, total(rule, t, n), m) || was_lucky(rule, t, n, msgs, r, claim, m),
{
    lemma_sound_suffix(rule, t, n, msgs, r, claim, 0, m);
    assert(msgs.take(0) =~= Seq::<Seq<int>>::empty());
    assert(r.take(0) =~= Seq::<int>::empty());
}

proof fn lemma_sound_suffix<S: Summand>(
    rule: S,
    t: Seq<Seq<int>>,
    n: nat,
    msgs: Seq<Seq<int>>,
    r: Seq<int>,
    claim: int,
    j: int,
    m: int,
)
    requires
        m > 0,
        0 <= j <= n,
        t.len() == rule.arity(),
        poly::tables_have_vars(t, n),
        msgs.len() == n,
        r.len() == n,
        arith::cong(running_claim(claim, msgs, r, m), rule.value(poly::evals_at(t, r, m)), m),
    ensures
        arith::cong(
            running_claim(claim, msgs.take(j), r.take(j), m),
            total(rule, bound(t, r.take(j), m), (n - j) as nat),
            m,
        ) || was_lucky(rule, t, n, msgs, r, claim, m),
    decreases n - j,
{
    if j == n {
        assert(msgs.take(j) =~= msgs && r.take(j) =~= r);
        let w = bound(t, r, m);
        lemma_bound_all(t, r, m);
        lemma2_to64();
        let f = |x: int| rule.value(column(w, x));
        assert(arith::sum(0, f) == 0);
        assert(arith::sum(1, f) == f(0));
        rule.lemma_cong(column(w, 0), poly::evals_at(t, r, m), m);
    } else {
        lemma_sound_suffix(rule, t, n, msgs, r, claim, j + 1, m);
        let left = (n - j) as nat;
        let u = bound(t, r.take(j), m);
        let c = running_claim(claim, msgs.take(j), r.take(j), m);
        assert(r.take(j + 1).drop_last() =~= r.take(j));
        assert(msgs.take(j + 1).drop_last() =~= msgs.take(j));
        lemma_bound_evals(t, r, j as nat, m);
        lemma_round_binds(rule, t, r.take(j + 1), left, m);
        lemma_round_splits(rule, u, left);
        arith::lemma_reduce(next_claim(msgs[j], c, r[j]), m);
        let q = (msgs[j][0], c - 2 * msgs[j][0] - msgs[j][1] - msgs[j][2], msgs[j][1], msgs[j][2]);
        lemma_cubic_small(q);
        if !arith::cong(c, total(rule, u, left), m) && arith::cong(
            running_claim(claim, msgs.take(j + 1), r.take(j + 1), m),
            total(rule, bound(t, r.take(j + 1), m), (left - 1) as nat),
            m,
        ) {
            assert(lucky_round(rule, t, n, msgs, r, claim, j, m));
        }
    }
}

/// The polynomial of a message has the coefficients of the message, and its values at zero
/// and one add up to the claim.
pub proof fn lemma_next_claim(msg: Seq<int>, claim: int, t: int)
    ensures
        next_claim(msg, claim, 0) + next_claim(msg, claim, 1) == claim,
        next_claim(msg, claim, 0) == msg[0],
        next_claim(msg, claim, t) == msg[0] + (claim - 2 * msg[0] - msg[1] - msg[2]) * t + msg[1]
            * (t * t) + msg[2] * (t * t * t),
{
    let q = (msg[0], claim - 2 * msg[0] - msg[1] - msg[2], msg[1], msg[2]);
    lemma_cubic_small(q);
}

/// What is left of a claim after one more round is the value of the message at the challenge.
pub proof fn lemma_running_claim(
    claim: int,
    msgs: Seq<Seq<int>>,
    msg: Seq<int>,
    r: Seq<int>,
    x: int,
    m: int,
)
    ensures
        running_claim(claim, Seq::empty(), Seq::empty(), m) == claim,
        running_claim(claim, msgs.push(msg), r.push(x), m) == next_claim(
            msg,
            running_claim(claim, msgs, r, m),
            x,
        ) % m,
{
    assert(msgs.push(msg).drop_last() =~= msgs);
    assert(r.push(x).drop_last() =~= r);
}

/// All messages are of three representatives.
pub open spec fn canonical_messages<F: JoltField>(msgs: Seq<Seq<int>>) -> bool {
    forall|j: int|
        0 <= j < msgs.len() ==> (#[trigger] msgs[j]).len() == 3 && field::canonical::<F>(msgs[j])
}

/// Transcripts that differ before a sum-check, or in one of its messages, differ after it, or
/// else they give a collision of the hash function. So a challenge depends on all messages
/// before it.
pub proof fn lemma_rounds_bind<F: JoltField>(
    s1: Seq<u8>,
    s2: Seq<u8>,
    a: Seq<Seq<int>>,
    b: Seq<Seq<int>>,
) -> (c: (Seq<u8>, Seq<u8>))
    requires
        a.len() == b.len(),
        canonical_messages::<F>(a),
        canonical_messages::<F>(b),
        s1 != s2 || a != b,
        rounds_state::<F>(s1, a) == rounds_state::<F>(s2, b),
    ensures
        transcript::collides(c.0, c.1),
    decreases a.len(),
{
    if a.len() == 0 {
        assert(a =~= b);
        (s1, s2)
    } else {
        let (x, y) = (a.drop_last(), b.drop_last());
        let p = rounds_state::<F>(s1, x);
        let q = rounds_state::<F>(s2, y);
        let pa = transcript::absorb_scalars::<F>(p, "poly"@, a.last());
        let qb = transcript::absorb_scalars::<F>(q, "poly"@, b.last());
        if pa != qb {
            transcript::lemma_squeeze_binds(pa, qb, "challenge_nextround"@)
        } else if p != q || a.last() != b.last() {
            transcript::lemma_absorb_scalars_binds::<F>(p, q, "poly"@, a.last(), b.last())
        } else {
            if x == y {
                assert(a =~= x.push(a.last()));
                assert(b =~= y.push(b.last()));
            }
            assert(canonical_messages::<F>(x)) by {
                assert forall|j: int| 0 <= j < x.len() implies (#[trigger] x[j]).len() == 3
                    && field::canonical::<F>(x[j]) by {
                    assert(x[j] == a[j]);
                }
            }
            assert(canonical_messages::<F>(y)) by {
                assert forall|j: int| 0 <= j < y.len() implies (#[trigger] y[j]).len() == 3
                    && field::canonical::<F>(y[j]) by {
                    assert(y[j] == b[j]);
                }
            }
            lemma_rounds_bind::<F>(s1, s2, x, y)
        }
    }
}

/// The challenge of a round is drawn after its message is absorbed, which follows the rounds
/// before.
pub proof fn lemma_round_challenge<F: JoltField>(
    state: Seq<u8>,
    msgs: Seq<Seq<int>>,
    msg: Seq<int>,
)
    ensures
        rounds_state::<F>(state, Seq::empty()) == state,
        round_challenges::<F>(state, Seq::empty()) == Seq::<int>::empty(),
        rounds_state::<F>(state, msgs.push(msg)) == transcript::squeeze(
            transcript::absorb_scalars::<F>(rounds_state::<F>(state, msgs), "poly"@, msg),
            "challenge_nextround"@,
        ),
        round_challenges::<F>(state, msgs.push(msg)) == round_challenges::<F>(state, msgs).push(
            F::decoding(rounds_state::<F>(state, msgs.push(msg))),
        ),
{
    lemma_extend_challenges::<F>(state, msgs, msg);
    assert(round_challenges::<F>(state, Seq::empty()) =~= Seq::<int>::empty());
}

/// One more message and the challenge that answers it.
proof fn lemma_extend_challenges<F: JoltField>(state: Seq<u8>, msgs: Seq<Seq<int>>, msg: Seq<int>)
    ensures
        ({
            let sent = transcript::absorb_scalars::<F>(
                rounds_state::<F>(state, msgs),
                "poly"@,
                msg,
            );
            &&& rounds_state::<F>(state, msgs.push(msg)) == transcript::squeeze(
                sent,
                "challenge_nextround"@,
            )
            &&& round_challenges::<F>(state, msgs.push(msg)) == round_challenges::<F>(
                state,
                msgs,
            ).push(transcript::challenge::<F>(sent, "challenge_nextround"@))
        }),
{
    let next = msgs.push(msg);
    assert(next.drop_last() =~= msgs);
    let a = round_challenges::<F>(state, next);
    let sent = transcript::absorb_scalars::<F>(rounds_state::<F>(state, msgs), "poly"@, msg);
    let b = round_challenges::<F>(state, msgs).push(
        transcript::challenge::<F>(sent, "challenge_nextround"@),
    );
    assert forall|j: int| 0 <= j < next.len() implies a[j] == b[j] by {
        assert(next.take(j) =~= msgs.take(j));
        if j == msgs.len() {
            assert(msgs.take(j) =~= msgs);
        }
    }
    assert(a =~= b);
}

/// One more honest message.
proof fn lemma_extend_messages<S: Summand>(
    rule: S,
    t: Seq<Seq<int>>,
    n: nat,
    msgs: Seq<Seq<int>>,
    msg: Seq<int>,
    r: Seq<int>,
    x: int,
    m: int,
)
    requires
        msgs.len() == r.len(),
        msgs.len() < n,
        forall|j: int|
            0 <= j < msgs.len() ==> #[trigger] msgs[j] == message(
                rule,
                bound(t, r.take(j), m),
                (n - j) as nat,
                m,
            ),
        msg == message(rule, bound(t, r, m), (n - r.len()) as nat, m),
    ensures
        forall|j: int|
            0 <= j < msgs.len() + 1 ==> #[trigger] msgs.push(msg)[j] == message(
                rule,
                bound(t, r.push(x).take(j), m),
                (n - j) as nat,
                m,
            ),
{
    assert forall|j: int| 0 <= j < msgs.len() + 1 implies #[trigger] msgs.push(msg)[j] == message(
        rule,
        bound(t, r.push(x).take(j), m),
        (n - j) as nat,
        m,
    ) by {
        assert(r.push(x).take(j) =~= r.take(j));
        if j == msgs.len() {
            assert(r.take(j) =~= r);
        } else {
            assert(msgs.push(msg)[j] == msgs[j]);
        }
    }
}

/// The messages of a sum-check proof.
pub open spec fn messages<F: JoltField>(polys: Seq<CompressedUniPoly<F>>) -> Seq<Seq<int>> {
    Seq::new(polys.len(), |j: int| field::values(polys[j].coeffs_except_linear_term@))
}

/// The polynomial of degree three from its values at zero, one, two and three.
///
/// Three times the second difference and the third difference give twice the
/// quadratic and six times the cubic coefficient.
proof fn lemma_interpolation(
    c: (int, int, int, int),
    e: (int, int, int, int),
    half: int,
    sixth: int,
    m: int,
)
    requires
        m > 1,
        (2 * half) % m == 1,
        (6 * sixth) % m == 1,
        arith::cong(e.0, cubic(c, 0), m),
        arith::cong(e.1, cubic(c, 1), m),
        arith::cong(e.2, cubic(c, 2), m),
        arith::cong(e.3, cubic(c, 3), m),
    ensures
        arith::cong(e.0, c.0, m),
        arith::cong(half * (2 * e.0 - 5 * e.1 + 4 * e.2 - e.3), c.2, m),
        arith::cong(sixth * (e.3 - 3 * e.2 + 3 * e.1 - e.0), c.3, m),
{
    lemma_cubic_small(c);
    let (v0, v1, v2, v3) = (cubic(c, 0), cubic(c, 1), cubic(c, 2), cubic(c, 3));
    arith::lemma_cong_mul(2, 2, e.0, v0, m);
    arith::lemma_cong_mul(5, 5, e.1, v1, m);
    arith::lemma_cong_mul(4, 4, e.2, v2, m);
    arith::lemma_cong_sub(2 * e.0, 2 * v0, 5 * e.1, 5 * v1, m);
    arith::lemma_cong_add(2 * e.0 - 5 * e.1, 2 * v0 - 5 * v1, 4 * e.2, 4 * v2, m);
    arith::lemma_cong_sub(
        2 * e.0 - 5 * e.1 + 4 * e.2,
        2 * v0 - 5 * v1 + 4 * v2,
        e.3,
        v3,
        m,
    );
    let d2 = 2 * e.0 - 5 * e.1 + 4 * e.2 - e.3;
    assert(arith::cong(d2, 2 * c.2, m));
    arith::lemma_cong_mul(half, half, d2, 2 * c.2, m);
    lemma_cancel(half, 2, c.2, m);
    arith::lemma_cong_mul(3, 3, e.2, v2, m);
    arith::lemma_cong_mul(3, 3, e.1, v1, m);
    arith::lemma_cong_sub(e.3, v3, 3 * e.2, 3 * v2, m);
    arith::lemma_cong_add(e.3 - 3 * e.2, v3 - 3 * v2, 3 * e.1, 3 * v1, m);
    arith::lemma_cong_sub(
        e.3 - 3 * e.2 + 3 * e.1,
        v3 - 3 * v2 + 3 * v1,
        e.0,
        v0,
        m,
    );
    let d3 = e.3 - 3 * e.2 + 3 * e.1 - e.0;
    assert(arith::cong(d3, 6 * c.3, m));
    arith::lemma_cong_mul(sixth, sixth, d3, 6 * c.3, m);
    lemma_cancel(sixth, 6, c.3, m);
}

proof fn lemma_cancel(inverse: int, k: int, x: int, m: int)
    requires
        m > 1,
        (k * inverse) % m == 1,
    ensures
        arith::cong(inverse * (k * x), x, m),
{
    arith::lemma_reduced_fixed(1, m);
    arith::lemma_cong_mul(k * inverse, 1, x, x, m);
    assert(inverse * (k * x) == (k * inverse) * x) by (nonlinear_arith);
}

/// Field operations on representatives, chained.
pub proof fn lemma_chain<F: JoltField>(a: int, x: int, b: int, y: int)
    requires
        a == x % F::modulus(),
        b == y % F::modulus(),
    ensures
        (a + b) % F::modulus() == (x + y) % F::modulus(),
        (a - b) % F::modulus() == (x - y) % F::modulus(),
        (a * b) % F::modulus() == (x * y) % F::modulus(),
{
    F::lemma_modulus();
    let m = F::modulus();
    arith::lemma_reduce(x, m);
    arith::lemma_reduce(y, m);
    arith::lemma_cong_add(a, x, b, y, m);
    arith::lemma_cong_sub(a, x, b, y, m);
    arith::lemma_cong_mul(a, x, b, y, m);
}

impl<F: JoltField> CompressedUniPoly<F> {
    /// The polynomial of degree three with the values `e0`, `e1`, `e2` and `e3` at
    /// zero, one, two and three.
    fn from_evals(e0: F, e1: F, e2: F, e3: F, Ghost(c): Ghost<(int, int, int, int)>) -> (r: Self)
        requires
            e0@ == cubic(c, 0) % F::modulus(),
            e1@ == cubic(c, 1) % F::modulus(),
            e2@ == cubic(c, 2) % F::modulus(),
            e3@ == cubic(c, 3) % F::modulus(),
        ensures
            field::values(r.coeffs_except_linear_term@) == seq![
                c.0 % F::modulus(),
                c.2 % F::modulus(),
                c.3 % F::modulus(),
            ],
    {
        let ghost m = F::modulus();
        let ghost (a0, a1, a2, a3) = (e0@, e1@, e2@, e3@);
        proof {
            F::lemma_modulus();
            F::lemma_canonical(e0);
            F::lemma_canonical(e1);
            F::lemma_canonical(e2);
            F::lemma_canonical(e3);
            arith::lemma_reduced_fixed(a0, m);
            arith::lemma_reduced_fixed(a1, m);
            arith::lemma_reduced_fixed(a2, m);
            arith::lemma_reduced_fixed(a3, m);
            lemma_chain::<F>(a0, a0, a0, a0);
            lemma_chain::<F>(a1, a1, a1, a1);
            lemma_chain::<F>(a2, a2, a2, a2);
        }
        let d0 = e0.add(&e0);
        let d1 = e1.add(&e1);
        let d2 = e2.add(&e2);
        let q1 = d1.add(&d1);
        let f1 = q1.add(&e1);
        let q2 = d2.add(&d2);
        let s1 = d0.sub(&f1);
        let s2 = s1.add(&q2);
        let twice = s2.sub(&e3);
        let half = F::half();
        let quadratic = half.mul(&twice);
        proof {
            lemma_chain::<F>(d1@, 2 * a1, d1@, 2 * a1);
            lemma_chain::<F>(q1@, 4 * a1, a1, a1);
            lemma_chain::<F>(d2@, 2 * a2, d2@, 2 * a2);
            lemma_chain::<F>(d0@, 2 * a0, f1@, 5 * a1);
            lemma_chain::<F>(s1@, 2 * a0 - 5 * a1, q2@, 4 * a2);
            lemma_chain::<F>(s2@, 2 * a0 - 5 * a1 + 4 * a2, a3, a3);
            F::lemma_canonical(half);
            arith::lemma_reduced_fixed(half@, m);
            lemma_chain::<F>(half@, half@, twice@, 2 * a0 - 5 * a1 + 4 * a2 - a3);
        }
        let t2 = d2.add(&e2);
        let t1 = d1.add(&e1);
        let u1 = e3.sub(&t2);
        let u2 = u1.add(&t1);
        let six_times = u2.sub(&e0);
        let sixth = F::sixth();
        let top = sixth.mul(&six_times);
        proof {
            lemma_chain::<F>(d2@, 2 * a2, a2, a2);
            lemma_chain::<F>(d1@, 2 * a1, a1, a1);
            lemma_chain::<F>(a3, a3, t2@, 3 * a2);
            lemma_chain::<F>(u1@, a3 - 3 * a2, t1@, 3 * a1);
            lemma_chain::<F>(u2@, a3 - 3 * a2 + 3 * a1, a0, a0);
            F::lemma_canonical(sixth);
            arith::lemma_reduced_fixed(sixth@, m);
            lemma_chain::<F>(sixth@, sixth@, six_times@, a3 - 3 * a2 + 3 * a1 - a0);
            arith::lemma_reduce(cubic(c, 0), m);
            arith::lemma_reduce(cubic(c, 1), m);
            arith::lemma_reduce(cubic(c, 2), m);
            arith::lemma_reduce(cubic(c, 3), m);
            lemma_interpolation(c, (a0, a1, a2, a3), half@, sixth@, m);
        }
        let mut coeffs: Vec<F> = Vec::new();
        coeffs.push(e0);
        coeffs.push(quadratic);
        coeffs.push(top);
        assert(field::values(coeffs@) =~= seq![c.0 % m, c.2 % m, c.3 % m]);
        CompressedUniPoly { coeffs_except_linear_term: coeffs }
    }

    /// The value at `t` of the polynomial whose values at zero and one add up to
    /// `claim`.
    pub fn evaluate(&self, claim: &F, t: &F) -> (r: F)
        requires
            self.coeffs_except_linear_term@.len() == 3,
        ensures
            r@ == next_claim(
                field::values(self.coeffs_except_linear_term@),
                claim@,
                t@,
            ) % F::modulus(),
    {
        let ghost msg = field::values(self.coeffs_except_linear_term@);
        let ghost (k, c0, c2, c3, x) = (claim@, msg[0], msg[1], msg[2], t@);
        let v0 = self.coeffs_except_linear_term[0];
        let v2 = self.coeffs_except_linear_term[1];
        let v3 = self.coeffs_except_linear_term[2];
        let ghost m = F::modulus();
        proof {
            F::lemma_canonical(*claim);
            F::lemma_canonical(*t);
            F::lemma_canonical(v0);
            F::lemma_canonical(v2);
            F::lemma_canonical(v3);
            arith::lemma_reduced_fixed(k, m);
            arith::lemma_reduced_fixed(x, m);
            arith::lemma_reduced_fixed(c0, m);
            arith::lemma_reduced_fixed(c2, m);
            arith::lemma_reduced_fixed(c3, m);
        }
        let l1 = claim.sub(&v0);
        let l2 = l1.sub(&v0);
        let l3 = l2.sub(&v2);
        let linear = l3.sub(&v3);
        let square = t.mul(t);
        let cube = square.mul(t);
        let s1 = linear.mul(t);
        let s2 = v2.mul(&square);
        let s3 = v3.mul(&cube);
        let r1 = v0.add(&s1);
        let r2 = r1.add(&s2);
        let r = r2.add(&s3);
        proof {
            lemma_chain::<F>(k, k, c0, c0);
            lemma_chain::<F>(l1@, k - c0, c0, c0);
            lemma_chain::<F>(l2@, k - c0 - c0, c2, c2);
            lemma_chain::<F>(l3@, k - c0 - c0 - c2, c3, c3);
            lemma_chain::<F>(x, x, x, x);
            lemma_chain::<F>(square@, x * x, x, x);
            let lin = k - 2 * c0 - c2 - c3;
            lemma_chain::<F>(linear@, lin, x, x);
            lemma_chain::<F>(c2, c2, square@, x * x);
            lemma_chain::<F>(c3, c3, cube@, x * x * x);
            lemma_chain::<F>(c0, c0, s1@, lin * x);
            lemma_chain::<F>(r1@, c0 + lin * x, s2@, c2 * (x * x));
            lemma_chain::<F>(r2@, c0 + lin * x + c2 * (x * x), s3@, c3 * (x * x * x));
        }
        r
    }
}

/// The values of the polynomials at the vertex `x`.
fn column_values<F: JoltField>(polys: &Vec<DensePolynomial<F>>, x: usize) -> (r: Vec<F>)
    requires
        forall|k: int| 0 <= k < polys@.len() ==> x < (#[trigger] polys@[k])@.len(),
    ensures
        field::values(r@) == column(poly::tables(polys@), x as int),
{
    let mut r: Vec<F> = Vec::new();
    let mut k: usize = 0;
    while k < polys.len()
        invariant
            k <= polys@.len(),
            forall|i: int| 0 <= i < polys@.len() ==> x < (#[trigger] polys@[i])@.len(),
            r@.len() == k,
            forall|i: int| 0 <= i < k ==> (#[trigger] r@[i])@ == polys@[i]@[x as int],
        decreases polys@.len() - k,
    {
        r.push(polys[k].get(x));
        k = k + 1;
    }
    assert(field::values(r@) =~= column(poly::tables(polys@), x as int));
    r
}

/// The next point on the line through `a` and `b`, after the point `from`.
fn step<F: JoltField>(a: &Vec<F>, b: &Vec<F>, from: &Vec<F>, Ghost(s): Ghost<int>) -> (r: Vec<F>)
    requires
        a@.len() == b@.len(),
        a@.len() == from@.len(),
        arith::cong_seq(
            field::values(from@),
            mle::line(field::values(a@), field::values(b@), s),
            F::modulus(),
        ),
    ensures
        r@.len() == a@.len(),
        arith::cong_seq(
            field::values(r@),
            mle::line(field::values(a@), field::values(b@), s + 1),
            F::modulus(),
        ),
{
    let ghost next = mle::line(field::values(a@), field::values(b@), s + 1);
    let ghost here = mle::line(field::values(a@), field::values(b@), s);
    let mut r: Vec<F> = Vec::new();
    let mut k: usize = 0;
    while k < a.len()
        invariant
            k <= a@.len(),
            a@.len() == b@.len(),
            a@.len() == from@.len(),
            here == mle::line(field::values(a@), field::values(b@), s),
            next == mle::line(field::values(a@), field::values(b@), s + 1),
            arith::cong_seq(field::values(from@), here, F::modulus()),
            r@.len() == k,
            forall|i: int| 0 <= i < k ==> arith::cong((#[trigger] r@[i])@, next[i], F::modulus()),
        decreases a@.len() - k,
    {
        let d = b[k].sub(&a[k]);
        let v = from[k].add(&d);
        proof {
            let m = F::modulus();
            F::lemma_modulus();
            let (x, y) = (a@[k as int]@, b@[k as int]@);
            arith::lemma_reduce(y - x, m);
            assert(arith::cong(field::values(from@)[k as int], here[k as int], m));
            arith::lemma_cong_add(from@[k as int]@, x + s * (y - x), d@, y - x, m);
            arith::lemma_reduce(from@[k as int]@ + d@, m);
            assert((s + 1) * (y - x) == s * (y - x) + (y - x)) by (nonlinear_arith);
        }
        r.push(v);
        k = k + 1;
    }
    assert forall|i: int| 0 <= i < next.len() implies arith::cong(
        #[trigger] field::values(r@)[i],
        next[i],
        F::modulus(),
    ) by {
        assert(arith::cong(r@[i]@, next[i], F::modulus()));
    }
    r
}

/// The value of a combination at a point that is known up to multiples of the modulus.
fn value_near<F: JoltField, K: Combination<F>>(comb: &K, v: &Vec<F>, Ghost(want): Ghost<Seq<int>>)
    -> (r: F)
    requires
        v@.len() == comb.rule().arity(),
        arith::cong_seq(field::values(v@), want, F::modulus()),
    ensures
        r@ == comb.rule().value(want) % F::modulus(),
{
    proof {
        F::lemma_modulus();
        comb.rule().lemma_cong(field::values(v@), want, F::modulus());
    }
    comb.evaluate(v)
}

/// The values of a round at zero, two and three.
fn round_evals<F: JoltField, K: Combination<F>>(
    polys: &Vec<DensePolynomial<F>>,
    comb: &K,
    half: usize,
    Ghost(n): Ghost<nat>,
) -> (r: (F, F, F))
    requires
        n > 0,
        half == pow2((n - 1) as nat),
        polys@.len() > 0,
        polys@.len() == comb.rule().arity(),
        poly::all_have_vars(polys@, n),
    ensures
        r.0@ == round_value(comb.rule(), poly::tables(polys@), n, 0) % F::modulus(),
        r.1@ == round_value(comb.rule(), poly::tables(polys@), n, 2) % F::modulus(),
        r.2@ == round_value(comb.rule(), poly::tables(polys@), n, 3) % F::modulus(),
{
    let ghost t = poly::tables(polys@);
    let ghost m = F::modulus();
    let ghost f0 = |x: int| comb.rule().value(mle::line(column(t, x), column(t, half + x), 0));
    let ghost f2 = |x: int| comb.rule().value(mle::line(column(t, x), column(t, half + x), 2));
    let ghost f3 = |x: int| comb.rule().value(mle::line(column(t, x), column(t, half + x), 3));
    let mut acc0 = F::zero();
    let mut acc2 = F::zero();
    let mut acc3 = F::zero();
    proof {
        F::lemma_modulus();
        arith::lemma_reduced_fixed(0, m);
        mle::lemma_halves(n);
        assert forall|k: int| 0 <= k < polys@.len() implies 2 * half == (
        #[trigger] polys@[k])@.len() by {
            assert(polys@[k].has_vars(n));
            polys@[k].lemma_has_vars(n);
        }
        assert(polys@[0].has_vars(n));
        polys@[0].lemma_has_vars(n);
    }
    let mut x: usize = 0;
    while x < half
        invariant
            x <= half,
            polys@.len() == comb.rule().arity(),
            t == poly::tables(polys@),
            m == F::modulus(),
            m > 0,
            2 * half <= usize::MAX,
            forall|k: int| 0 <= k < polys@.len() ==> 2 * half == (#[trigger] polys@[k])@.len(),
            f0 == |x: int| comb.rule().value(mle::line(column(t, x), column(t, half + x), 0)),
            f2 == |x: int| comb.rule().value(mle::line(column(t, x), column(t, half + x), 2)),
            f3 == |x: int| comb.rule().value(mle::line(column(t, x), column(t, half + x), 3)),
            acc0@ == arith::sum(x as nat, f0) % m,
            acc2@ == arith::sum(x as nat, f2) % m,
            acc3@ == arith::sum(x as nat, f3) % m,
        decreases half - x,
    {
        let a = column_values(polys, x);
        let b = column_values(polys, half + x);
        let ghost (va, vb) = (column(t, x as int), column(t, half + x));
        assert(a@.len() == field::values(a@).len() && b@.len() == field::values(b@).len());
        assert(mle::line(va, vb, 0) =~= va);
        assert(mle::line(va, vb, 1) =~= vb);
        let y0 = value_near(comb, &a, Ghost(mle::line(va, vb, 0)));
        let p2 = step(&a, &b, &b, Ghost(1));
        let y2 = value_near(comb, &p2, Ghost(mle::line(va, vb, 2)));
        let p3 = step(&a, &b, &p2, Ghost(2));
        let y3 = value_near(comb, &p3, Ghost(mle::line(va, vb, 3)));
        proof {
            lemma_chain::<F>(acc0@, arith::sum(x as nat, f0), y0@, f0(x as int));
            lemma_chain::<F>(acc2@, arith::sum(x as nat, f2), y2@, f2(x as int));
            lemma_chain::<F>(acc3@, arith::sum(x as nat, f3), y3@, f3(x as int));
        }
        acc0 = acc0.add(&y0);
        acc2 = acc2.add(&y2);
        acc3 = acc3.add(&y3);
        x = x + 1;
    }
    (acc0, acc2, acc3)
}

/// Proves one round, in which the first of `n` variables is bound.
///
/// Gives the message, the challenge, and the claim that is left.
fn prove_round<F: JoltField, K: Combination<F>>(
    claim: &F,
    polys: &mut Vec<DensePolynomial<F>>,
    comb: &K,
    transcript: &mut ProofTranscript,
    Ghost(n): Ghost<nat>,
) -> (r: (CompressedUniPoly<F>, F, F))
    requires
        n > 0,
        old(polys)@.len() > 0,
        old(polys)@.len() == comb.rule().arity(),
        poly::all_have_vars(old(polys)@, n),
        claim@ == total(comb.rule(), poly::tables(old(polys)@), n) % F::modulus(),
    ensures
        ({
            let u = poly::tables(old(polys)@);
            let msg = message(comb.rule(), u, n, F::modulus());
            let sent = transcript::absorb_scalars::<F>(old(transcript)@, "poly"@, msg);
            &&& field::values(r.0.coeffs_except_linear_term@) == msg
            &&& r.1@ == transcript::challenge::<F>(sent, "challenge_nextround"@)
            &&& final(transcript)@ == transcript::squeeze(sent, "challenge_nextround"@)
            &&& final(polys)@.len() == old(polys)@.len()
            &&& poly::all_have_vars(final(polys)@, (n - 1) as nat)
            &&& poly::tables(final(polys)@) == Seq::new(
                u.len(),
                |k: int| arith::reduced(mle::bind_first(u[k], r.1@), F::modulus()),
            )
            &&& r.2@ == total(comb.rule(), poly::tables(final(polys)@), (n - 1) as nat)
                % F::modulus()
        }),
{
    let ghost u = poly::tables(polys@);
    let ghost m = F::modulus();
    let ghost rule = comb.rule();
    proof {
        F::lemma_modulus();
        mle::lemma_halves(n);
        poly::lemma_tables_have_vars(polys@, n);
        assert(u[0].len() == pow2(n));
    }
    let half: usize = polys[0].len() / 2;
    let (e0, e2, e3) = round_evals(polys, comb, half, Ghost(n));
    let e1 = claim.sub(&e0);
    proof {
        lemma_round_splits(rule, u, n);
        lemma_chain::<F>(claim@, total(rule, u, n), e0@, round_value(rule, u, n, 0));
        lemma_round_cubic(rule, u, n, 0);
        lemma_round_cubic(rule, u, n, 1);
        lemma_round_cubic(rule, u, n, 2);
        lemma_round_cubic(rule, u, n, 3);
    }
    let poly = CompressedUniPoly::from_evals(e0, e1, e2, e3, Ghost(round_coeffs(rule, u, n)));
    assert(field::values(poly.coeffs_except_linear_term@) == message(rule, u, n, m));
    transcript.append_scalars("poly", poly.coeffs_except_linear_term.as_slice());
    let r_j: F = transcript.challenge_scalar("challenge_nextround");
    let next = poly.evaluate(claim, &r_j);
    bind_all(polys, &r_j, Ghost(n));
    proof {
        let w = poly::tables(polys@);
        let rs = seq![r_j@];
        assert(rs.drop_last() =~= Seq::<int>::empty());
        assert(bound(u, rs.drop_last(), m) == u);
        assert(w =~= bound(u, rs, m));
        arith::lemma_reduce(total(rule, u, n), m);
        lemma_honest_round(rule, u, n, claim@, r_j@, m);
        lemma_round_binds(rule, u, rs, n, m);
    }
    (poly, r_j, next)
}

impl<F: JoltField> SumcheckInstanceProof<F> {
    /// The representatives of the messages.
    pub open spec fn view(&self) -> Seq<Seq<int>> {
        messages(self.compressed_polys@)
    }

    /// Proves that `comb` sums to `claim` over the hypercube with `num_rounds`
    /// variables.
    ///
    /// Gives the proof, the challenges, and the values of the polynomials at the
    /// challenges. Binds the polynomials to the challenges.
    #[verifier::spinoff_prover]
    #[verifier::rlimit(60)]
    pub fn prove_arbitrary<K: Combination<F>>(
        claim: &F,
        num_rounds: usize,
        polys: &mut Vec<DensePolynomial<F>>,
        comb: &K,
        transcript: &mut ProofTranscript,
    ) -> (r: (Self, Vec<F>, Vec<F>))
        requires
            old(polys)@.len() > 0,
            old(polys)@.len() == comb.rule().arity(),
            poly::all_have_vars(old(polys)@, num_rounds as nat),
            claim@ == total(comb.rule(), poly::tables(old(polys)@), num_rounds as nat) % F::modulus(),
        ensures
            honest(
                comb.rule(),
                poly::tables(old(polys)@),
                num_rounds as nat,
                r.0@,
                field::values(r.1@),
                F::modulus(),
            ),
            field::values(r.1@) == round_challenges::<F>(old(transcript)@, r.0@),
            final(transcript)@ == rounds_state::<F>(old(transcript)@, r.0@),
            field::values(r.2@) == poly::evals_at(
                poly::tables(old(polys)@),
                field::values(r.1@),
                F::modulus(),
            ),
            poly::tables(final(polys)@) == bound(
                poly::tables(old(polys)@),
                field::values(r.1@),
                F::modulus(),
            ),
    {
        let ghost t = poly::tables(polys@);
        let ghost n = num_rounds as nat;
        let ghost m = F::modulus();
        let ghost s0 = transcript@;
        proof {
            F::lemma_modulus();
            poly::lemma_tables_have_vars(polys@, n);
        }
        let mut previous_claim = *claim;
        let mut compressed_polys: Vec<CompressedUniPoly<F>> = Vec::new();
        let mut r: Vec<F> = Vec::new();
        let mut round: usize = 0;
        assert(messages(compressed_polys@) =~= Seq::<Seq<int>>::empty());
        assert(field::values(r@) =~= Seq::<int>::empty());
        while round < num_rounds
            invariant
                round <= num_rounds,
                n == num_rounds,
                m == F::modulus(),
                m > 1,
                t == poly::tables(old(polys)@),
                t.len() > 0,
                t.len() == comb.rule().arity(),
                poly::tables_have_vars(t, n),
                s0 == old(transcript)@,
                polys@.len() == t.len(),
                poly::all_have_vars(polys@, (n - round) as nat),
                r@.len() == round,
                compressed_polys@.len() == round,
                poly::tables(polys@) == bound(t, field::values(r@), m),
                previous_claim@ == total(comb.rule(), poly::tables(polys@), (n - round) as nat) % m,
                transcript@ == rounds_state::<F>(s0, messages(compressed_polys@)),
                field::values(r@) == round_challenges::<F>(s0, messages(compressed_polys@)),
                forall|j: int|
                    0 <= j < round ==> #[trigger] messages(compressed_polys@)[j] == message(
                        comb.rule(),
                        bound(t, field::values(r@).take(j), m),
                        (n - j) as nat,
                        m,
                    ),
            decreases num_rounds - round,
        {
            let ghost left = (n - round) as nat;
            let ghost rv = field::values(r@);
            let ghost msgs = messages(compressed_polys@);
            let ghost msg = message(comb.rule(), poly::tables(polys@), left, m);
            let (poly, r_j, next) = prove_round(
                &previous_claim,
                polys,
                comb,
                transcript,
                Ghost(left),
            );
            previous_claim = next;
            r.push(r_j);
            compressed_polys.push(poly);
            proof {
                let rv2 = field::values(r@);
                assert(rv2 =~= rv.push(r_j@));
                assert(messages(compressed_polys@) =~= msgs.push(msg));
                assert(rv2.drop_last() =~= rv);
                assert(poly::tables(polys@) =~= bound(t, rv2, m));
                lemma_extend_challenges::<F>(s0, msgs, msg);
                lemma_extend_messages(comb.rule(), t, n, msgs, msg, rv, r_j@, m);
            }
            round = round + 1;
        }
        proof {
            let rv = field::values(r@);
            lemma_bound_all(t, rv, m);
            lemma2_to64();
            assert forall|k: int| 0 <= k < polys@.len() implies 0 < (
            #[trigger] polys@[k])@.len() by {
                assert(poly::tables(polys@)[k].len() == 1);
            }
        }
        let final_evals = column_values(polys, 0);
        proof {
            let rv = field::values(r@);
            let fv = field::values(final_evals@);
            let want = poly::evals_at(t, rv, m);
            assert forall|k: int| 0 <= k < fv.len() implies fv[k] == want[k] by {
                assert(arith::cong(column(bound(t, rv, m), 0)[k], want[k], m));
                F::lemma_canonical(final_evals@[k]);
                arith::lemma_reduced_fixed(fv[k], m);
                arith::lemma_reduce(mle::eval(t[k], rv), m);
                arith::lemma_reduced_fixed(want[k], m);
            }
            assert(fv =~= want);
        }
        (SumcheckInstanceProof { compressed_polys }, r, final_evals)
    }

    /// Follows the rounds of a proof that a combination sums to `claim`.
    ///
    /// Gives the claim that is left on the combination at the challenges, and the
    /// challenges.
    pub fn verify(&self, claim: F, num_rounds: usize, transcript: &mut ProofTranscript) -> (r:
        Result<(F, Vec<F>), ProofVerifyError>)
        ensures
            match r {
                Ok((e, c)) => {
                    &&& well_shaped(self@, num_rounds as nat)
                    &&& self@.len() == num_rounds
                    &&& c@.len() == num_rounds
                    &&& forall|j: int| 0 <= j < num_rounds ==> (#[trigger] self@[j]).len() == 3
                    &&& field::values(c@) == round_challenges::<F>(old(transcript)@, self@)
                    &&& e@ == running_claim(claim@, self@, field::values(c@), F::modulus())
                    &&& final(transcript)@ == rounds_state::<F>(old(transcript)@, self@)
                },
                Err(e) => {
                    &&& !well_shaped(self@, num_rounds as nat)
                    &&& e == if self@.len() != num_rounds {
                        ProofVerifyError::InvalidRounds
                    } else {
                        ProofVerifyError::InvalidDegree
                    }
                    &&& final(transcript)@ == old(transcript)@
                },
            },
    {
        if self.compressed_polys.len() != num_rounds {
            return Err(ProofVerifyError::InvalidRounds);
        }
        let mut i: usize = 0;
        while i < num_rounds
            invariant
                i <= num_rounds,
                num_rounds == self.compressed_polys@.len(),
                transcript@ == old(transcript)@,
                forall|j: int| 0 <= j < i ==> (#[trigger] self@[j]).len() == 3,
            decreases num_rounds - i,
        {
            if self.compressed_polys[i].coeffs_except_linear_term.len() != 3 {
                assert(self@[i as int].len() != 3);
                return Err(ProofVerifyError::InvalidDegree);
            }
            i = i + 1;
        }
        let ghost s0 = transcript@;
        let ghost msgs = self@;
        let mut e = claim;
        let mut r: Vec<F> = Vec::new();
        let mut j: usize = 0;
        assert(msgs.take(0) =~= Seq::<Seq<int>>::empty());
        assert(field::values(r@) =~= Seq::<int>::empty());
        while j < num_rounds
            invariant
                j <= num_rounds,
                msgs == self@,
                num_rounds == self.compressed_polys@.len(),
                forall|k: int| 0 <= k < num_rounds ==> (#[trigger] msgs[k]).len() == 3,
                s0 == old(transcript)@,
                r@.len() == j,
                field::values(r@) == round_challenges::<F>(s0, msgs).take(j as int),
                transcript@ == rounds_state::<F>(s0, msgs.take(j as int)),
                e@ == running_claim(
                    claim@,
                    msgs.take(j as int),
                    field::values(r@),
                    F::modulus(),
                ),
            decreases num_rounds - j,
        {
            let poly = &self.compressed_polys[j];
            let ghost rv = field::values(r@);
            assert(msgs[j as int].len() == 3);
            transcript.append_scalars("poly", poly.coeffs_except_linear_term.as_slice());
            let r_j: F = transcript.challenge_scalar("challenge_nextround");
            e = poly.evaluate(&e, &r_j);
            r.push(r_j);
            proof {
                let rv2 = field::values(r@);
                assert(rv2 =~= rv.push(r_j@));
                assert(rv2.drop_last() =~= rv);
                assert(msgs.take(j + 1).drop_last() =~= msgs.take(j as int));
                let rc = round_challenges::<F>(s0, msgs);
                assert(rv2 =~= rc.take(j + 1)) by {
                    assert forall|k: int| 0 <= k < j implies rv2[k] == rc[k] by {
                        assert(rv[k] == rc.take(j as int)[k]);
                    }
                }
            }
            j = j + 1;
        }
        assert(msgs.take(num_rounds as int) =~= msgs);
        let ghost rc = round_challenges::<F>(s0, msgs);
        assert(rc.take(num_rounds as int) =~= rc);
        Ok((e, r))
    }
}

/// Binds the first variable of every polynomial to `r`.
fn bind_all<F: JoltField>(polys: &mut Vec<DensePolynomial<F>>, r: &F, Ghost(n): Ghost<nat>)
    requires
        n > 0,
        poly::all_have_vars(old(polys)@, n),
    ensures
        final(polys)@.len() == old(polys)@.len(),
        poly::all_have_vars(final(polys)@, (n - 1) as nat),
        forall|k: int|
            0 <= k < final(polys)@.len() ==> (#[trigger] final(polys)@[k])@ == arith::reduced(
                mle::bind_first(old(polys)@[k]@, r@),
                F::modulus(),
            ),
{
    let ghost before = polys@;
    let mut k: usize = 0;
    while k < polys.len()
        invariant
            k <= polys@.len(),
            n > 0,
            before == old(polys)@,
            polys@.len() == before.len(),
            poly::all_have_vars(before, n),
            forall|i: int| k <= i < before.len() ==> #[trigger] polys@[i] == before[i],
            forall|i: int|
                0 <= i < k ==> {
                    &&& (#[trigger] polys@[i]).has_vars((n - 1) as nat)
                    &&& polys@[i]@ == arith::reduced(
                        mle::bind_first(before[i]@, r@),
                        F::modulus(),
                    )
                },
        decreases polys@.len() - k,
    {
        proof {
            assert(before[k as int].has_vars(n));
            assert(polys@[k as int] == before[k as int]);
        }
        polys[k].bound_poly_var_top(r);
        k = k + 1;
    }
}

} // verus!
