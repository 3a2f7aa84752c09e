//! The combinations of polynomials that the grand product protocols sum over the
//! hypercube.
use crate::arith;
use crate::field;
use crate::field::JoltField;
use crate::mle;
use crate::poly;
use crate::sumcheck;
use crate::sumcheck::{Combination, Summand};
use vstd::prelude::*;

verus! {

/// The combination of `claims` by the coefficients `rho`.
pub open spec fn combined(claims: Seq<int>, rho: Seq<int>) -> int {
    arith::sum(
        if claims.len() <= rho.len() {
            claims.len()
        } else {
            rho.len()
        },
        |i: int| claims[i] * rho[i],
    )
}

/// The combination of `claims` by the coefficients `rho`.
pub fn combine<F: JoltField>(claims: &[F], rho: &[F]) -> (r: F)
    ensures
        r@ == combined(field::values(claims@), field::values(rho@)) % F::modulus(),
{
    let ghost c = field::values(claims@);
    let ghost d = field::values(rho@);
    let ghost f = |i: int| c[i] * d[i];
    let mut acc = F::zero();
    let mut i: usize = 0;
    proof {
        F::lemma_modulus();
        arith::lemma_reduced_fixed(0, F::modulus());
    }
    while i < claims.len() && i < rho.len()
        invariant
            i <= claims@.len(),
            i <= rho@.len(),
            c == field::values(claims@),
            d == field::values(rho@),
            f == |i: int| c[i] * d[i],
            acc@ == arith::sum(i as nat, f) % F::modulus(),
        decreases claims@.len() - i,
    {
        proof {
            poly::lemma_add_product::<F>(arith::sum(i as nat, f), c[i as int], d[i as int]);
        }
        acc = acc.add(&claims[i].mul(&rho[i]));
        i = i + 1;
    }
    acc
}

/// Claims that are not all true, but combine to the same value as the true ones: the
/// coefficients are a point at which a linear form that is not zero vanishes.
pub open spec fn lucky_coefficients(
    claims: Seq<int>,
    truth: Seq<int>,
    rho: Seq<int>,
    m: int,
) -> bool {
    &&& exists|i: int| 0 <= i < claims.len() && !arith::cong(#[trigger] claims[i], truth[i], m)
    &&& arith::cong(
        arith::sum(claims.len(), |i: int| claims[i] * rho[i]),
        arith::sum(claims.len(), |i: int| truth[i] * rho[i]),
        m,
    )
}

proof fn lemma_sum_one_differs(n: nat, f: spec_fn(int) -> int, g: spec_fn(int) -> int, i: int)
    requires
        0 <= i < n,
        forall|k: int| 0 <= k < n && k != i ==> #[trigger] f(k) == g(k),
    ensures
        arith::sum(n, f) - arith::sum(n, g) == f(i) - g(i),
    decreases n,
{
    if i == n - 1 {
        arith::lemma_sum_ext((n - 1) as nat, f, g);
    } else {
        lemma_sum_one_differs((n - 1) as nat, f, g, i);
    }
}

/// Every coefficient counts: a claim that combines to the true value with two vectors of
/// coefficients that differ in its own coefficient alone, by a number with an inverse, is
/// true.
pub proof fn lemma_coefficients_tell_apart(
    claims: Seq<int>,
    truth: Seq<int>,
    rho: Seq<int>,
    other: Seq<int>,
    i: int,
    inverse: int,
    m: int,
)
    requires
        m > 1,
        0 <= i < claims.len(),
        truth.len() == claims.len(),
        rho.len() == claims.len(),
        other.len() == claims.len(),
        forall|k: int| 0 <= k < rho.len() && k != i ==> #[trigger] rho[k] == other[k],
        (inverse * (rho[i] - other[i])) % m == 1,
        arith::cong(combined(claims, rho), combined(truth, rho), m),
        arith::cong(combined(claims, other), combined(truth, other), m),
    ensures
        arith::cong(claims[i], truth[i], m),
{
    let n = claims.len();
    let a = |k: int| claims[k] * rho[k];
    let b = |k: int| claims[k] * other[k];
    let c = |k: int| truth[k] * rho[k];
    let d = |k: int| truth[k] * other[k];
    lemma_sum_one_differs(n, a, b, i);
    lemma_sum_one_differs(n, c, d, i);
    arith::lemma_cong_sub(
        combined(claims, rho),
        combined(truth, rho),
        combined(claims, other),
        combined(truth, other),
        m,
    );
    let (x, y, t) = (claims[i], truth[i], rho[i] - other[i]);
    lemma_distribute(x, rho[i], other[i]);
    lemma_distribute(y, rho[i], other[i]);
    assert(arith::cong(x * t, y * t, m));
    arith::lemma_cong_mul(inverse, inverse, x * t, y * t, m);
    let w = inverse * t;
    assert(inverse * (x * t) == w * x) by (nonlinear_arith)
        requires
            w == inverse * t,
    ;
    assert(inverse * (y * t) == w * y) by (nonlinear_arith)
        requires
            w == inverse * t,
    ;
    arith::lemma_reduced_fixed(1, m);
    arith::lemma_cong_mul(w, 1, x, x, m);
    arith::lemma_cong_mul(w, 1, y, y, m);
}

/// The coefficients of `(a.0 + a.1 * t) * (b.0 + b.1 * t)`.
pub open spec fn prod2(a: (int, int), b: (int, int)) -> (int, int, int, int) {
    (a.0 * b.0, a.0 * b.1 + a.1 * b.0, a.1 * b.1, 0)
}

/// The coefficients of `(a.0 + a.1 * t) * (b.0 + b.1 * t) * (c.0 + c.1 * t)`.
pub open spec fn prod3(a: (int, int), b: (int, int), c: (int, int)) -> (int, int, int, int) {
    let p = prod2(b, c);
    (
        a.0 * p.0,
        a.0 * p.1 + a.1 * p.0,
        a.0 * p.2 + a.1 * p.1,
        a.1 * p.2,
    )
}

/// The line through `a[i]` and `b[i]`, by its value at zero and its slope.
pub open spec fn slope(a: Seq<int>, b: Seq<int>, i: int) -> (int, int) {
    (a[i], b[i] - a[i])
}

proof fn lemma_distribute(x: int, y: int, z: int)
    ensures
        x * (y + z) == x * y + x * z,
        (y + z) * x == y * x + z * x,
        x * (y - z) == x * y - x * z,
        (y - z) * x == y * x - z * x,
{
    assert(x * (y + z) == x * y + x * z) by (nonlinear_arith);
    assert((y + z) * x == y * x + z * x) by (nonlinear_arith);
    assert(x * (y - z) == x * y - x * z) by (nonlinear_arith);
    assert((y - z) * x == y * x - z * x) by (nonlinear_arith);
}

proof fn lemma_prod2(a: (int, int), b: (int, int), t: int)
    ensures
        (a.0 + t * a.1) * (b.0 + t * b.1) == sumcheck::cubic(prod2(a, b), t),
{
    let (a0, a1, b0, b1) = (a.0, a.1, b.0, b.1);
    let (u, w) = (t * a1, t * b1);
    lemma_distribute(a0 + u, b0, w);
    lemma_distribute(b0, a0, u);
    lemma_distribute(w, a0, u);
    assert(a0 * w == (a0 * b1) * t) by (nonlinear_arith)
        requires
            w == t * b1,
    ;
    assert(u * b0 == (a1 * b0) * t) by (nonlinear_arith)
        requires
            u == t * a1,
    ;
    assert(u * w == (a1 * b1) * (t * t)) by (nonlinear_arith)
        requires
            u == t * a1,
            w == t * b1,
    ;
    lemma_distribute(t, a0 * b1, a1 * b0);
    assert(0 * (t * t * t) == 0);
}

proof fn lemma_prod3(a: (int, int), b: (int, int), c: (int, int), t: int)
    ensures
        (a.0 + t * a.1) * ((b.0 + t * b.1) * (c.0 + t * c.1)) == sumcheck::cubic(
            prod3(a, b, c),
            t,
        ),
{
    lemma_prod2(b, c, t);
    let p = prod2(b, c);
    let (a0, a1, p0, p1, p2) = (a.0, a.1, p.0, p.1, p.2);
    let t2 = t * t;
    let t3 = t * t * t;
    let u = t * a1;
    let (s1, s2) = (p1 * t, p2 * t2);
    assert(0 * t3 == 0);
    lemma_distribute(a0 + u, p0 + s1, s2);
    lemma_distribute(a0 + u, p0, s1);
    lemma_distribute(p0, a0, u);
    lemma_distribute(s1, a0, u);
    lemma_distribute(s2, a0, u);
    assert(a0 * s1 == (a0 * p1) * t) by (nonlinear_arith)
        requires
            s1 == p1 * t,
    ;
    assert(a0 * s2 == (a0 * p2) * t2) by (nonlinear_arith)
        requires
            s2 == p2 * t2,
    ;
    assert(u * p0 == (a1 * p0) * t) by (nonlinear_arith)
        requires
            u == t * a1,
    ;
    assert(u * s1 == (a1 * p1) * t2) by (nonlinear_arith)
        requires
            u == t * a1,
            s1 == p1 * t,
            t2 == t * t,
    ;
    assert(u * s2 == (a1 * p2) * t3) by (nonlinear_arith)
        requires
            u == t * a1,
            s2 == p2 * t2,
            t3 == t2 * t,
    ;
    lemma_distribute(t, a0 * p1, a1 * p0);
    lemma_distribute(t2, a0 * p2, a1 * p1);
}

/// A multiple of a polynomial of degree three.
proof fn lemma_cubic_scale(c: int, s: (int, int, int, int), t: int)
    ensures
        c * sumcheck::cubic(s, t) == sumcheck::cubic((c * s.0, c * s.1, c * s.2, c * s.3), t),
{
    let (x1, x2, x3) = (s.1 * t, s.2 * (t * t), s.3 * (t * t * t));
    lemma_distribute(c, s.0 + x1 + x2, x3);
    lemma_distribute(c, s.0 + x1, x2);
    lemma_distribute(c, s.0, x1);
    vstd::arithmetic::mul::lemma_mul_is_associative(c, s.1, t);
    vstd::arithmetic::mul::lemma_mul_is_associative(c, s.2, t * t);
    vstd::arithmetic::mul::lemma_mul_is_associative(c, s.3, t * t * t);
}

/// The sum and the difference of polynomials of degree three.
proof fn lemma_cubic_sum(
    p: (int, int, int, int),
    q: (int, int, int, int),
    r: (int, int, int, int),
    t: int,
)
    ensures
        sumcheck::cubic(p, t) - sumcheck::cubic(q, t) + sumcheck::cubic(r, t) == sumcheck::cubic(
            (p.0 - q.0 + r.0, p.1 - q.1 + r.1, p.2 - q.2 + r.2, p.3 - q.3 + r.3),
            t,
        ),
{
    let t2 = t * t;
    let t3 = t * t * t;
    lemma_distribute(t, p.1 - q.1, r.1);
    lemma_distribute(t, p.1, q.1);
    lemma_distribute(t2, p.2 - q.2, r.2);
    lemma_distribute(t2, p.2, q.2);
    lemma_distribute(t3, p.3 - q.3, r.3);
    lemma_distribute(t3, p.3, q.3);
}

/// The combination of the quark sum-check.
///
/// It takes, for each grand product, the values of `f(1, x)`, `f(x, 0)` and
/// `f(x, 1)`, and after them the values of `eq(tau, x)` and `eq(1, x)`.
pub struct QuarkCombination<F: JoltField> {
    pub r_combination: Vec<F>,
}

/// What one grand product with the coefficient `c` adds to the quark sum-check.
pub open spec fn quark_term(c: int, eq: int, one: int, f1: int, f0: int, fo: int) -> int {
    c * (eq * (f1 - f0 * fo) + one * f0)
}

/// The coefficients of a term of the quark sum-check on a line.
pub open spec fn quark_coeffs(
    c: int,
    eq: (int, int),
    one: (int, int),
    f1: (int, int),
    f0: (int, int),
    fo: (int, int),
) -> (int, int, int, int) {
    let p = prod2(eq, f1);
    let q = prod3(eq, f0, fo);
    let r = prod2(one, f0);
    (
        c * (p.0 - q.0 + r.0),
        c * (p.1 - q.1 + r.1),
        c * (p.2 - q.2 + r.2),
        c * (p.3 - q.3 + r.3),
    )
}

proof fn lemma_quark_term(
    c: int,
    eq: (int, int),
    one: (int, int),
    f1: (int, int),
    f0: (int, int),
    fo: (int, int),
    t: int,
)
    ensures
        quark_term(
            c,
            eq.0 + t * eq.1,
            one.0 + t * one.1,
            f1.0 + t * f1.1,
            f0.0 + t * f0.1,
            fo.0 + t * fo.1,
        ) == sumcheck::cubic(quark_coeffs(c, eq, one, f1, f0, fo), t),
{
    let (e, o) = (eq.0 + t * eq.1, one.0 + t * one.1);
    let (x, y, z) = (f1.0 + t * f1.1, f0.0 + t * f0.1, fo.0 + t * fo.1);
    lemma_prod2(eq, f1, t);
    lemma_prod3(eq, f0, fo, t);
    lemma_prod2(one, f0, t);
    let p = prod2(eq, f1);
    let q = prod3(eq, f0, fo);
    let r = prod2(one, f0);
    lemma_distribute(e, x, y * z);
    lemma_cubic_sum(p, q, r, t);
    lemma_cubic_scale(
        c,
        (p.0 - q.0 + r.0, p.1 - q.1 + r.1, p.2 - q.2 + r.2, p.3 - q.3 + r.3),
        t,
    );
}

/// A term of the quark sum-check depends on the residues of the values alone.
pub proof fn lemma_quark_term_cong(
    c: int,
    a: (int, int, int, int, int),
    b: (int, int, int, int, int),
    m: int,
)
    requires
        m > 0,
        arith::cong(a.0, b.0, m),
        arith::cong(a.1, b.1, m),
        arith::cong(a.2, b.2, m),
        arith::cong(a.3, b.3, m),
        arith::cong(a.4, b.4, m),
    ensures
        arith::cong(
            quark_term(c, a.0, a.1, a.2, a.3, a.4),
            quark_term(c, b.0, b.1, b.2, b.3, b.4),
            m,
        ),
{
    arith::lemma_cong_mul(a.3, b.3, a.4, b.4, m);
    arith::lemma_cong_sub(a.2, b.2, a.3 * a.4, b.3 * b.4, m);
    arith::lemma_cong_mul(a.0, b.0, a.2 - a.3 * a.4, b.2 - b.3 * b.4, m);
    arith::lemma_cong_mul(a.1, b.1, a.3, b.3, m);
    let (x, y) = (a.0 * (a.2 - a.3 * a.4) + a.1 * a.3, b.0 * (b.2 - b.3 * b.4) + b.1 * b.3);
    arith::lemma_cong_add(
        a.0 * (a.2 - a.3 * a.4),
        b.0 * (b.2 - b.3 * b.4),
        a.1 * a.3,
        b.1 * b.3,
        m,
    );
    arith::lemma_cong_mul(c, c, x, y, m);
}

/// The sum of the terms of the grand products with the coefficients `rho`, for the
/// values `v` of the polynomials.
pub open spec fn quark_sum(rho: Seq<int>, v: Seq<int>) -> int {
    let l = rho.len() as int;
    arith::sum(
        rho.len(),
        |i: int| quark_term(rho[i], v[3 * l], v[3 * l + 1], v[3 * i], v[3 * i + 1], v[3 * i + 2]),
    )
}

/// The rule of the quark sum-check with the coefficients `rho`.
pub struct QuarkRule {
    pub rho: Seq<int>,
}

impl Summand for QuarkRule {
    open spec fn arity(self) -> nat {
        3 * self.rho.len() + 2
    }

    open spec fn value(self, v: Seq<int>) -> int {
        quark_sum(self.rho, v)
    }

    open spec fn coeffs(self, a: Seq<int>, b: Seq<int>) -> (int, int, int, int) {
        let l = self.rho.len() as int;
        let c = |i: int|
            quark_coeffs(
                self.rho[i],
                slope(a, b, 3 * l),
                slope(a, b, 3 * l + 1),
                slope(a, b, 3 * i),
                slope(a, b, 3 * i + 1),
                slope(a, b, 3 * i + 2),
            );
        (
            arith::sum(l as nat, |i: int| c(i).0),
            arith::sum(l as nat, |i: int| c(i).1),
            arith::sum(l as nat, |i: int| c(i).2),
            arith::sum(l as nat, |i: int| c(i).3),
        )
    }

    proof fn lemma_cubic(self, a: Seq<int>, b: Seq<int>, t: int) {
        let l = self.rho.len() as int;
        let rho = self.rho;
        let v = mle::line(a, b, t);
        let c = |i: int|
            quark_coeffs(
                self.rho[i],
                slope(a, b, 3 * l),
                slope(a, b, 3 * l + 1),
                slope(a, b, 3 * i),
                slope(a, b, 3 * i + 1),
                slope(a, b, 3 * i + 2),
            );
        let f = |i: int|
            quark_term(rho[i], v[3 * l], v[3 * l + 1], v[3 * i], v[3 * i + 1], v[3 * i + 2]);
        let c0 = |i: int| c(i).0;
        let c1 = |i: int| c(i).1;
        let c2 = |i: int| c(i).2;
        let c3 = |i: int| c(i).3;
        assert forall|i: int| 0 <= i < l implies #[trigger] f(i) == sumcheck::cubic(
            (c0(i), c1(i), c2(i), c3(i)),
            t,
        ) by {
            lemma_quark_term(
                rho[i],
                slope(a, b, 3 * l),
                slope(a, b, 3 * l + 1),
                slope(a, b, 3 * i),
                slope(a, b, 3 * i + 1),
                slope(a, b, 3 * i + 2),
                t,
            );
        }
        sumcheck::lemma_sum_cubic(l as nat, f, c0, c1, c2, c3, t);
    }

    proof fn lemma_cong(self, a: Seq<int>, b: Seq<int>, m: int) {
        let l = self.rho.len() as int;
        let rho = self.rho;
        let f = |i: int|
            quark_term(rho[i], a[3 * l], a[3 * l + 1], a[3 * i], a[3 * i + 1], a[3 * i + 2]);
        let g = |i: int|
            quark_term(rho[i], b[3 * l], b[3 * l + 1], b[3 * i], b[3 * i + 1], b[3 * i + 2]);
        assert forall|i: int| 0 <= i < l implies arith::cong(#[trigger] f(i), g(i), m) by {
            assert(arith::cong(a[3 * l], b[3 * l], m));
            assert(arith::cong(a[3 * l + 1], b[3 * l + 1], m));
            assert(arith::cong(a[3 * i], b[3 * i], m));
            assert(arith::cong(a[3 * i + 1], b[3 * i + 1], m));
            assert(arith::cong(a[3 * i + 2], b[3 * i + 2], m));
            lemma_quark_term_cong(
                rho[i],
                (a[3 * l], a[3 * l + 1], a[3 * i], a[3 * i + 1], a[3 * i + 2]),
                (b[3 * l], b[3 * l + 1], b[3 * i], b[3 * i + 1], b[3 * i + 2]),
                m,
            );
        }
        arith::lemma_sum_cong(l as nat, f, g, m);
    }
}

impl<F: JoltField> Combination<F> for QuarkCombination<F> {
    type Rule = QuarkRule;

    open spec fn rule(&self) -> QuarkRule {
        QuarkRule { rho: field::values(self.r_combination@) }
    }

    fn evaluate(&self, vals: &Vec<F>) -> (r: F) {
        let l = self.r_combination.len();
        let ghost rho = field::values(self.r_combination@);
        let ghost v = field::values(vals@);
        let ghost m = F::modulus();
        let ghost f = |i: int|
            quark_term(rho[i], v[3 * l], v[3 * l + 1], v[3 * i], v[3 * i + 1], v[3 * i + 2]);
        proof {
            F::lemma_modulus();
            arith::lemma_reduced_fixed(0, m);
        }
        let eval = vals[vals.len() - 2];
        let eq_sum = vals[vals.len() - 1];
        let mut sum = F::zero();
        let mut i: usize = 0;
        while i < l
            invariant
                i <= l,
                l == self.r_combination@.len(),
                vals@.len() == 3 * l + 2,
                vals@.len() <= usize::MAX,
                rho == field::values(self.r_combination@),
                v == field::values(vals@),
                m == F::modulus(),
                eval@ == v[3 * l],
                eq_sum@ == v[3 * l + 1],
                f == |i: int|
                    quark_term(
                        rho[i],
                        v[3 * l],
                        v[3 * l + 1],
                        v[3 * i],
                        v[3 * i + 1],
                        v[3 * i + 2],
                    ),
                sum@ == arith::sum(i as nat, f) % m,
            decreases l - i,
        {
            let term = term_value(
                &self.r_combination[i],
                &eval,
                &eq_sum,
                &vals[3 * i],
                &vals[3 * i + 1],
                &vals[3 * i + 2],
            );
            proof {
                sumcheck::lemma_chain::<F>(
                    sum@,
                    arith::sum(i as nat, f),
                    term@,
                    f(i as int),
                );
            }
            sum = sum.add(&term);
            i = i + 1;
        }
        sum
    }
}

/// What one grand product with the coefficient `c` adds to the quark sum-check.
pub fn term_value<F: JoltField>(c: &F, eq: &F, one: &F, f1: &F, f0: &F, fo: &F) -> (r: F)
    ensures
        r@ == quark_term(c@, eq@, one@, f1@, f0@, fo@) % F::modulus(),
{
    let a = f0.mul(fo);
    let b = f1.sub(&a);
    let d = eq.mul(&b);
    let e = one.mul(f0);
    let s = d.add(&e);
    let r = c.mul(&s);
    proof {
        let m = F::modulus();
        F::lemma_canonical(*c);
        F::lemma_canonical(*eq);
        F::lemma_canonical(*f1);
        arith::lemma_reduced_fixed(c@, m);
        arith::lemma_reduced_fixed(eq@, m);
        arith::lemma_reduced_fixed(f1@, m);
        sumcheck::lemma_chain::<F>(f1@, f1@, a@, f0@ * fo@);
        sumcheck::lemma_chain::<F>(eq@, eq@, b@, f1@ - f0@ * fo@);
        sumcheck::lemma_chain::<F>(d@, eq@ * (f1@ - f0@ * fo@), e@, one@ * f0@);
        sumcheck::lemma_chain::<F>(c@, c@, s@, eq@ * (f1@ - f0@ * fo@) + one@ * f0@);
    }
    r
}

/// The combination of the sum-check of a layer of products.
///
/// It takes, for each grand product, the values of the left and of the right factor,
/// and after them the value of `eq(r, x)`.
pub struct LayerCombination<F: JoltField> {
    pub coeffs: Vec<F>,
}

/// The rule of the sum-check of a layer with the coefficients `rho`.
pub struct LayerRule {
    pub rho: Seq<int>,
}

/// What one grand product with the coefficient `c` adds to the sum-check of a layer.
pub open spec fn layer_term(c: int, eq: int, left: int, right: int) -> int {
    c * (eq * (left * right))
}

/// The coefficients of a term of the sum-check of a layer on a line.
pub open spec fn layer_coeffs(
    c: int,
    eq: (int, int),
    left: (int, int),
    right: (int, int),
) -> (int, int, int, int) {
    let p = prod3(eq, left, right);
    (c * p.0, c * p.1, c * p.2, c * p.3)
}

impl Summand for LayerRule {
    open spec fn arity(self) -> nat {
        2 * self.rho.len() + 1
    }

    open spec fn value(self, v: Seq<int>) -> int {
        let l = self.rho.len() as int;
        arith::sum(
            l as nat,
            |i: int| layer_term(self.rho[i], v[2 * l], v[2 * i], v[2 * i + 1]),
        )
    }

    open spec fn coeffs(self, a: Seq<int>, b: Seq<int>) -> (int, int, int, int) {
        let l = self.rho.len() as int;
        let c = |i: int|
            layer_coeffs(
                self.rho[i],
                slope(a, b, 2 * l),
                slope(a, b, 2 * i),
                slope(a, b, 2 * i + 1),
            );
        (
            arith::sum(l as nat, |i: int| c(i).0),
            arith::sum(l as nat, |i: int| c(i).1),
            arith::sum(l as nat, |i: int| c(i).2),
            arith::sum(l as nat, |i: int| c(i).3),
        )
    }

    proof fn lemma_cubic(self, a: Seq<int>, b: Seq<int>, t: int) {
        let l = self.rho.len() as int;
        let v = mle::line(a, b, t);
        let c = |i: int|
            layer_coeffs(
                self.rho[i],
                slope(a, b, 2 * l),
                slope(a, b, 2 * i),
                slope(a, b, 2 * i + 1),
            );
        let f = |i: int| layer_term(self.rho[i], v[2 * l], v[2 * i], v[2 * i + 1]);
        let c0 = |i: int| c(i).0;
        let c1 = |i: int| c(i).1;
        let c2 = |i: int| c(i).2;
        let c3 = |i: int| c(i).3;
        assert forall|i: int| 0 <= i < l implies #[trigger] f(i) == sumcheck::cubic(
            (c0(i), c1(i), c2(i), c3(i)),
            t,
        ) by {
            let (e, x, y) = (slope(a, b, 2 * l), slope(a, b, 2 * i), slope(a, b, 2 * i + 1));
            lemma_prod3(e, x, y, t);
            lemma_cubic_scale(self.rho[i], prod3(e, x, y), t);
        }
        sumcheck::lemma_sum_cubic(l as nat, f, c0, c1, c2, c3, t);
    }

    proof fn lemma_cong(self, a: Seq<int>, b: Seq<int>, m: int) {
        let l = self.rho.len() as int;
        let f = |i: int| layer_term(self.rho[i], a[2 * l], a[2 * i], a[2 * i + 1]);
        let g = |i: int| layer_term(self.rho[i], b[2 * l], b[2 * i], b[2 * i + 1]);
        assert forall|i: int| 0 <= i < l implies arith::cong(#[trigger] f(i), g(i), m) by {
            assert(arith::cong(a[2 * l], b[2 * l], m));
            assert(arith::cong(a[2 * i], b[2 * i], m));
            assert(arith::cong(a[2 * i + 1], b[2 * i + 1], m));
            arith::lemma_cong_mul(a[2 * i], b[2 * i], a[2 * i + 1], b[2 * i + 1], m);
            let (x, y) = (a[2 * i] * a[2 * i + 1], b[2 * i] * b[2 * i + 1]);
            arith::lemma_cong_mul(a[2 * l], b[2 * l], x, y, m);
            arith::lemma_cong_mul(self.rho[i], self.rho[i], a[2 * l] * x, b[2 * l] * y, m);
        }
        arith::lemma_sum_cong(l as nat, f, g, m);
    }
}

impl<F: JoltField> Combination<F> for LayerCombination<F> {
    type Rule = LayerRule;

    open spec fn rule(&self) -> LayerRule {
        LayerRule { rho: field::values(self.coeffs@) }
    }

    fn evaluate(&self, vals: &Vec<F>) -> (r: F) {
        let l = self.coeffs.len();
        let ghost rho = field::values(self.coeffs@);
        let ghost v = field::values(vals@);
        let ghost m = F::modulus();
        let ghost f = |i: int| layer_term(rho[i], v[2 * l], v[2 * i], v[2 * i + 1]);
        proof {
            F::lemma_modulus();
            arith::lemma_reduced_fixed(0, m);
        }
        let eq = vals[vals.len() - 1];
        let mut sum = F::zero();
        let mut i: usize = 0;
        while i < l
            invariant
                i <= l,
                l == self.coeffs@.len(),
                vals@.len() == 2 * l + 1,
                vals@.len() <= usize::MAX,
                rho == field::values(self.coeffs@),
                v == field::values(vals@),
                m == F::modulus(),
                eq@ == v[2 * l],
                f == |i: int| layer_term(rho[i], v[2 * l], v[2 * i], v[2 * i + 1]),
                sum@ == arith::sum(i as nat, f) % m,
            decreases l - i,
        {
            let term = layer_value(&self.coeffs[i], &eq, &vals[2 * i], &vals[2 * i + 1]);
            proof {
                sumcheck::lemma_chain::<F>(
                    sum@,
                    arith::sum(i as nat, f),
                    term@,
                    f(i as int),
                );
            }
            sum = sum.add(&term);
            i = i + 1;
        }
        sum
    }
}

/// What one grand product with the coefficient `c` adds to the sum-check of a layer.
pub fn layer_value<F: JoltField>(c: &F, eq: &F, left: &F, right: &F) -> (r: F)
    ensures
        r@ == layer_term(c@, eq@, left@, right@) % F::modulus(),
{
    let a = left.mul(right);
    let b = eq.mul(&a);
    let r = c.mul(&b);
    proof {
        let m = F::modulus();
        F::lemma_canonical(*c);
        F::lemma_canonical(*eq);
        arith::lemma_reduced_fixed(c@, m);
        arith::lemma_reduced_fixed(eq@, m);
        sumcheck::lemma_chain::<F>(eq@, eq@, a@, left@ * right@);
        sumcheck::lemma_chain::<F>(c@, c@, b@, eq@ * (left@ * right@));
    }
    r
}

} // verus!
