//! Multilinear polynomials with field coefficients, by their values on the
//! Boolean hypercube.
use crate::arith;
use crate::field;
use crate::field::JoltField;
use crate::math;
use crate::mle;
use vstd::arithmetic::power2::*;
use vstd::prelude::*;

verus! {

/// A multilinear polynomial, by its values on the hypercube.
pub struct DensePolynomial<F: JoltField> {
    num_vars: usize,
    evals: Vec<F>,
}

/// The values of several polynomials.
pub open spec fn tables<F: JoltField>(polys: Seq<DensePolynomial<F>>) -> Seq<Seq<int>> {
    Seq::new(polys.len(), |i: int| polys[i]@)
}

/// Every polynomial of `polys` has `n` variables.
pub open spec fn all_have_vars<F: JoltField>(polys: Seq<DensePolynomial<F>>, n: nat) -> bool {
    forall|i: int| 0 <= i < polys.len() ==> (#[trigger] polys[i]).has_vars(n)
}

/// Every table of `t` has the values of a polynomial with `n` variables.
pub open spec fn tables_have_vars(t: Seq<Seq<int>>, n: nat) -> bool {
    forall|k: int| 0 <= k < t.len() ==> (#[trigger] t[k]).len() == pow2(n)
}

/// The tables of polynomials with `n` variables have as many values as there are vertices.
pub proof fn lemma_tables_have_vars<F: JoltField>(polys: Seq<DensePolynomial<F>>, n: nat)
    requires
        all_have_vars(polys, n),
    ensures
        tables_have_vars(tables(polys), n),
        polys.len() > 0 ==> pow2(n) <= usize::MAX,
{
    assert forall|k: int| 0 <= k < polys.len() implies (#[trigger] tables(polys)[k]).len() == pow2(
        n,
    ) by {
        assert(polys[k].has_vars(n));
        polys[k].lemma_has_vars(n);
    }
    if polys.len() > 0 {
        assert(polys[0].has_vars(n));
        polys[0].lemma_has_vars(n);
    }
}

/// The values at `point` of the polynomials with the values `t`, reduced.
pub open spec fn evals_at(t: Seq<Seq<int>>, point: Seq<int>, m: int) -> Seq<int> {
    Seq::new(t.len(), |i: int| mle::eval(t[i], point) % m)
}

/// The values are taken polynomial by polynomial.
pub proof fn lemma_evals_at(t: Seq<Seq<int>>, point: Seq<int>, i: int, m: int)
    requires
        0 <= i < t.len(),
    ensures
        evals_at(t, point, m).len() == t.len(),
        evals_at(t, point, m)[i] == mle::eval(t[i], point) % m,
{
}

impl<F: JoltField> DensePolynomial<F> {
    /// The representatives of the values on the hypercube.
    pub closed spec fn view(&self) -> Seq<int> {
        field::values(self.evals@)
    }

    /// The polynomial has `n` variables.
    pub closed spec fn has_vars(&self, n: nat) -> bool {
        self.num_vars == n && self.evals@.len() == pow2(n) && pow2(n) <= usize::MAX
    }

    /// A polynomial with `n` variables has a value for each vertex.
    pub proof fn lemma_has_vars(&self, n: nat)
        requires
            self.has_vars(n),
        ensures
            self@.len() == pow2(n),
            pow2(n) <= usize::MAX,
    {
    }

    /// The values are representatives.
    pub proof fn lemma_view_canonical(&self)
        ensures
            field::canonical::<F>(self@),
    {
        field::lemma_values_canonical(self.evals@);
    }

    /// The polynomial with the values `evals`.
    pub fn new(evals: Vec<F>) -> (r: Self)
        requires
            math::is_pow2(evals@.len() as int),
        ensures
            r@ == field::values(evals@),
            r.has_vars(math::log2(evals@.len() as int)),
    {
        proof {
            math::lemma_pow2_log2(evals@.len() as int);
        }
        let num_vars = math::log_2(evals.len());
        DensePolynomial { num_vars, evals }
    }

    /// A copy of the polynomial.
    pub fn copy(&self) -> (r: Self)
        ensures
            r@ == self@,
            forall|n: nat| self.has_vars(n) ==> r.has_vars(n),
    {
        let evals = field::copy_of(self.evals.as_slice());
        DensePolynomial { num_vars: self.num_vars, evals }
    }

    /// The values on the hypercube.
    pub fn evaluations(&self) -> (r: Vec<F>)
        ensures
            field::values(r@) == self@,
    {
        field::copy_of(self.evals.as_slice())
    }

    /// The number of values.
    pub fn len(&self) -> (r: usize)
        ensures
            r == self@.len(),
    {
        self.evals.len()
    }

    /// The value at the vertex with index `i`.
    pub fn get(&self, i: usize) -> (r: F)
        requires
            i < self@.len(),
        ensures
            r@ == self@[i as int],
    {
        self.evals[i]
    }

    /// Binds the first variable to `r`.
    pub fn bound_poly_var_top(&mut self, r: &F)
        requires
            exists|n: nat| n > 0 && #[trigger] old(self).has_vars(n),
        ensures
            final(self)@ == arith::reduced(mle::bind_first(old(self)@, r@), F::modulus()),
            forall|n: nat| n > 0 && old(self).has_vars(n) ==> final(self).has_vars((n - 1) as nat),
    {
        let half: usize = self.evals.len() / 2;
        let ghost e = self@;
        proof {
            F::lemma_modulus();
            mle::lemma_halves(self.num_vars as nat);
        }
        let mut next: Vec<F> = Vec::new();
        let mut i: usize = 0;
        while i < half
            invariant
                i <= half,
                half == e.len() / 2,
                2 * half <= self.evals@.len() <= usize::MAX,
                e == self@,
                F::modulus() > 0,
                next@.len() == i,
                forall|j: int|
                    0 <= j < i ==> (#[trigger] next@[j])@ == mle::bind_first(e, r@)[j]
                        % F::modulus(),
            decreases half - i,
        {
            let low = self.evals[i];
            let high = self.evals[half + i];
            let x = low.add(&r.mul(&high.sub(&low)));
            proof {
                lemma_line_value::<F>(low@, high@, r@);
            }
            next.push(x);
            i = i + 1;
        }
        self.evals = next;
        self.num_vars = self.num_vars - 1;
        assert(self@ =~= arith::reduced(mle::bind_first(e, r@), F::modulus()));
    }

    /// The value at the point whose Lagrange basis is `chis`.
    pub fn evaluate_at_chi(&self, chis: &[F]) -> (r: F)
        requires
            chis@.len() == self@.len(),
        ensures
            r@ == arith::dot(self@, field::values(chis@)) % F::modulus(),
    {
        let mut acc = F::zero();
        let mut i: usize = 0;
        let ghost e = self@;
        let ghost c = field::values(chis@);
        let ghost f = |j: int| e[j] * c[j];
        proof {
            F::lemma_modulus();
            arith::lemma_reduced_fixed(0, F::modulus());
        }
        while i < self.evals.len()
            invariant
                i <= self.evals@.len(),
                e == self@,
                c == field::values(chis@),
                chis@.len() == e.len(),
                f == |j: int| e[j] * c[j],
                F::modulus() > 0,
                acc@ == arith::sum(i as nat, f) % F::modulus(),
            decreases self.evals@.len() - i,
        {
            proof {
                lemma_add_product::<F>(arith::sum(i as nat, f), e[i as int], c[i as int]);
            }
            acc = acc.add(&self.evals[i].mul(&chis[i]));
            i = i + 1;
        }
        acc
    }
}

/// What field operations compute of a point on a line.
pub proof fn lemma_line_value<F: JoltField>(x: int, y: int, t: int)
    ensures
        (x + (t * ((y - x) % F::modulus())) % F::modulus()) % F::modulus() == (x + t * (y - x))
            % F::modulus(),
{
    F::lemma_modulus();
    let m = F::modulus();
    arith::lemma_reduce(y - x, m);
    arith::lemma_cong_mul(t, t, (y - x) % m, y - x, m);
    arith::lemma_reduce(t * ((y - x) % m), m);
    arith::lemma_cong_add(x, x, (t * ((y - x) % m)) % m, t * (y - x), m);
}

/// What field operations compute of a sum to which a product is added.
pub proof fn lemma_add_product<F: JoltField>(s: int, x: int, y: int)
    ensures
        (s % F::modulus() + (x * y) % F::modulus()) % F::modulus() == (s + x * y) % F::modulus(),
{
    F::lemma_modulus();
    let m = F::modulus();
    arith::lemma_reduce(s, m);
    arith::lemma_reduce(x * y, m);
    arith::lemma_cong_add(s % m, s, (x * y) % m, x * y, m);
}

/// The polynomials that tell vertices of the hypercube apart.
pub struct EqPolynomial;

impl EqPolynomial {
    /// The Lagrange basis of the hypercube at `r`.
    pub fn evals<F: JoltField>(r: &[F]) -> (out: Vec<F>)
        requires
            pow2(r@.len()) <= usize::MAX,
        ensures
            field::values(out@) == arith::reduced(mle::chis(field::values(r@)), F::modulus()),
            out@.len() == pow2(r@.len()),
    {
        let ghost p = field::values(r@);
        let mut out: Vec<F> = Vec::new();
        out.push(F::one());
        let mut j: usize = 0;
        proof {
            F::lemma_modulus();
            arith::lemma_reduced_fixed(1, F::modulus());
            assert(field::values(out@) =~= arith::reduced(mle::chis(p.take(0)), F::modulus()));
        }
        while j < r.len()
            invariant
                j <= r@.len(),
                p == field::values(r@),
                F::modulus() > 0,
                field::values(out@) == arith::reduced(mle::chis(p.take(j as int)), F::modulus()),
            decreases r@.len() - j,
        {
            let next = split_values(&out, &r[j]);
            proof {
                let s = mle::chis(p.take(j as int));
                let m = F::modulus();
                assert(p.take(j + 1).drop_last() =~= p.take(j as int));
                arith::lemma_reduced_cong(s, m);
                lemma_split_cong(arith::reduced(s, m), s, p[j as int], m);
                arith::lemma_cong_reduced_eq(
                    mle::split_last(arith::reduced(s, m), p[j as int]),
                    mle::split_last(s, p[j as int]),
                    m,
                );
            }
            out = next;
            j = j + 1;
        }
        proof {
            assert(p.take(p.len() as int) =~= p);
            mle::lemma_chis_len(p);
            assert(field::values(out@).len() == out@.len());
        }
        out
    }
}

impl EqPolynomial {
    /// The polynomial that tells whether two vertices are the same, at `(x, y)`.
    pub fn evaluate<F: JoltField>(x: &[F], y: &[F]) -> (r: F)
        requires
            x@.len() == y@.len(),
        ensures
            r@ == mle::eq_at(field::values(x@), field::values(y@)) % F::modulus(),
    {
        let ghost a = field::values(x@);
        let ghost b = field::values(y@);
        let ghost m = F::modulus();
        let one = F::one();
        let mut acc = F::one();
        let mut i: usize = 0;
        proof {
            F::lemma_modulus();
            arith::lemma_reduced_fixed(1, m);
        }
        while i < x.len()
            invariant
                i <= x@.len(),
                x@.len() == y@.len(),
                a == field::values(x@),
                b == field::values(y@),
                m == F::modulus(),
                m > 1,
                one@ == 1,
                acc@ == mle::eq_at(a.take(i as int), b.take(i as int)) % m,
            decreases x@.len() - i,
        {
            let both = x[i].mul(&y[i]);
            let not_x = one.sub(&x[i]);
            let not_y = one.sub(&y[i]);
            let neither = not_x.mul(&not_y);
            let same = both.add(&neither);
            proof {
                let (u, v) = (a[i as int], b[i as int]);
                arith::lemma_reduce(u * v, m);
                arith::lemma_reduce(1 - u, m);
                arith::lemma_reduce(1 - v, m);
                arith::lemma_cong_mul(not_x@, 1 - u, not_y@, 1 - v, m);
                arith::lemma_reduce(not_x@ * not_y@, m);
                arith::lemma_cong_add(both@, u * v, neither@, (1 - u) * (1 - v), m);
                arith::lemma_reduce(both@ + neither@, m);
                let before = mle::eq_at(a.take(i as int), b.take(i as int));
                arith::lemma_reduce(before, m);
                arith::lemma_cong_mul(acc@, before, same@, u * v + (1 - u) * (1 - v), m);
                assert(a.take(i + 1).drop_last() =~= a.take(i as int));
                assert(b.take(i + 1).drop_last() =~= b.take(i as int));
            }
            acc = acc.mul(&same);
            i = i + 1;
        }
        assert(a.take(a.len() as int) =~= a && b.take(b.len() as int) =~= b);
        acc
    }
}

proof fn lemma_split_cong(a: Seq<int>, b: Seq<int>, t: int, m: int)
    requires
        m > 0,
        arith::cong_seq(a, b, m),
    ensures
        arith::cong_seq(mle::split_last(a, t), mle::split_last(b, t), m),
{
    let x = mle::split_last(a, t);
    let y = mle::split_last(b, t);
    assert forall|i: int| 0 <= i < x.len() implies arith::cong(#[trigger] x[i], y[i], m) by {
        let h = i / 2;
        assert(0 <= h < a.len());
        assert(arith::cong(a[h], b[h], m));
        arith::lemma_cong_mul(a[h], b[h], t, t, m);
        arith::lemma_cong_sub(a[h], b[h], a[h] * t, b[h] * t, m);
    }
}

/// Splits each value of `s` into a share for zero and a share for one, by `t`.
fn split_values<F: JoltField>(s: &Vec<F>, t: &F) -> (r: Vec<F>)
    ensures
        field::values(r@) == arith::reduced(
            mle::split_last(field::values(s@), t@),
            F::modulus(),
        ),
{
    let mut r: Vec<F> = Vec::new();
    let ghost v = field::values(s@);
    let ghost want = arith::reduced(mle::split_last(v, t@), F::modulus());
    let mut i: usize = 0;
    proof {
        F::lemma_modulus();
    }
    while i < s.len()
        invariant
            i <= s@.len(),
            v == field::values(s@),
            want == arith::reduced(mle::split_last(v, t@), F::modulus()),
            F::modulus() > 0,
            r@.len() == 2 * i,
            forall|k: int| 0 <= k < 2 * i ==> (#[trigger] r@[k])@ == want[k],
        decreases s@.len() - i,
    {
        let high = s[i].mul(t);
        let low = s[i].sub(&high);
        proof {
            let x = v[i as int];
            let m = F::modulus();
            arith::lemma_reduce(x * t@, m);
            arith::lemma_cong_sub(x, x, (x * t@) % m, x * t@, m);
            assert((2 * i) / 2 == i && (2 * i + 1) / 2 == i);
            assert(want[2 * i] == (x - x * t@) % m);
            assert(want[2 * i + 1] == (x * t@) % m);
        }
        r.push(low);
        r.push(high);
        i = i + 1;
    }
    assert(field::values(r@) =~= want);
    r
}

proof fn lemma_dot_cong(a: Seq<int>, b: Seq<int>, c: Seq<int>, m: int)
    requires
        m > 0,
        a.len() == b.len(),
        arith::cong_seq(b, c, m),
    ensures
        arith::cong(arith::dot(a, b), arith::dot(a, c), m),
{
    let f = |i: int| a[i] * b[i];
    let g = |i: int| a[i] * c[i];
    assert forall|i: int| 0 <= i < a.len() implies arith::cong(#[trigger] f(i), g(i), m) by {
        assert(arith::cong(b[i], c[i], m));
        arith::lemma_cong_mul(a[i], a[i], b[i], c[i], m);
    }
    arith::lemma_sum_cong(a.len(), f, g, m);
    assert(arith::dot(a, b) == arith::sum(a.len(), f));
    assert(arith::dot(a, c) == arith::sum(a.len(), g));
}

/// The values of several polynomials at one point.
pub fn evaluate_all<F: JoltField>(polys: &[DensePolynomial<F>], point: &[F]) -> (r: Vec<F>)
    requires
        pow2(point@.len()) <= usize::MAX,
        all_have_vars(polys@, point@.len()),
    ensures
        field::values(r@) == evals_at(tables(polys@), field::values(point@), F::modulus()),
{
    let chis = EqPolynomial::evals(point);
    let ghost x = field::values(point@);
    let ghost want = evals_at(tables(polys@), x, F::modulus());
    let mut r: Vec<F> = Vec::new();
    let mut i: usize = 0;
    while i < polys.len()
        invariant
            i <= polys@.len(),
            x == field::values(point@),
            want == evals_at(tables(polys@), x, F::modulus()),
            all_have_vars(polys@, x.len()),
            field::values(chis@) == arith::reduced(mle::chis(x), F::modulus()),
            chis@.len() == pow2(x.len()),
            r@.len() == i,
            forall|k: int| 0 <= k < i ==> (#[trigger] r@[k])@ == want[k],
        decreases polys@.len() - i,
    {
        proof {
            assert(polys@[i as int].has_vars(x.len()));
            polys@[i as int].lemma_has_vars(x.len());
        }
        let v = polys[i].evaluate_at_chi(chis.as_slice());
        proof {
            let e = polys@[i as int]@;
            let m = F::modulus();
            F::lemma_modulus();
            mle::lemma_chis_len(x);
            arith::lemma_reduced_cong(mle::chis(x), m);
            lemma_dot_cong(e, arith::reduced(mle::chis(x), m), mle::chis(x), m);
            mle::lemma_eval_is_dot(e, x);
            assert(tables(polys@)[i as int] == e);
        }
        r.push(v);
        i = i + 1;
    }
    assert(field::values(r@) =~= want);
    r
}

} // verus!
