//! The table of partial products of a grand product.
//!
//! The table `f` of the values `v` of a polynomial with `n` variables is the
//! polynomial with `n + 1` variables for which `f(0, x) = v(x)` and
//! `f(1, x) = f(x, 0) * f(x, 1)` at every vertex `x`. It holds the inner nodes of
//! the binary tree of products over the leaves `v`, so that
//! `f(1, ..., 1, 0)` is the product of all values.
use crate::arith;
use crate::field;
use crate::field::JoltField;
use crate::math;
use crate::mle;
use crate::poly::DensePolynomial;
use vstd::arithmetic::power2::*;
use vstd::prelude::*;

verus! {

/// The entry of the table of `v` at the index `i`.
pub open spec fn entry(v: Seq<int>, i: int) -> int
    decreases i,
{
    let n = v.len() as int;
    if i < n {
        v[i]
    } else if i < 2 * n - 1 {
        entry(v, 2 * (i - n)) * entry(v, 2 * (i - n) + 1)
    } else {
        0
    }
}

/// The table of partial products over the leaves `v`.
pub open spec fn product_table(v: Seq<int>) -> Seq<int> {
    Seq::new(2 * v.len(), |i: int| entry(v, i))
}

/// The product of the entries of `s` from `a` up to `b`.
spec fn range_product(s: Seq<int>, a: int, b: int) -> int {
    arith::product(s.subrange(a, b))
}

/// At every vertex `x`, the table is `f(0, x) = v(x)` and
/// `f(1, x) = f(x, 0) * f(x, 1)`.
pub proof fn lemma_table_recurrence(v: Seq<int>, x: int)
    requires
        0 <= x < v.len(),
    ensures
        product_table(v)[x] == v[x],
        product_table(v)[v.len() + x] == product_table(v)[2 * x] * product_table(v)[2 * x + 1],
        mle::low_half(product_table(v)) == v,
{
    let n = v.len() as int;
    let t = product_table(v);
    assert(mle::low_half(t) =~= v);
    if x == n - 1 {
        assert(t[2 * x + 1] == 0);
        assert(t[2 * x] * 0 == 0);
    }
}

/// The product over a stretch of inner nodes is the product over their children.
proof fn lemma_children(v: Seq<int>, x: int, y: int)
    requires
        0 <= x <= y < v.len(),
    ensures
        range_product(product_table(v), v.len() + x, v.len() + y) == range_product(
            product_table(v),
            2 * x,
            2 * y,
        ),
    decreases y - x,
{
    let t = product_table(v);
    let n = v.len() as int;
    if x < y {
        lemma_children(v, x, y - 1);
        lemma_table_recurrence(v, y - 1);
        assert(t.subrange(n + x, n + y) =~= t.subrange(n + x, n + y - 1).push(t[n + y - 1]));
        assert(t.subrange(2 * x, 2 * y - 1) =~= t.subrange(2 * x, 2 * y - 2).push(t[2 * y - 2]));
        assert(t.subrange(2 * x, 2 * y) =~= t.subrange(2 * x, 2 * y - 1).push(t[2 * y - 1]));
        arith::lemma_product_push(t.subrange(n + x, n + y - 1), t[n + y - 1]);
        arith::lemma_product_push(t.subrange(2 * x, 2 * y - 2), t[2 * y - 2]);
        arith::lemma_product_push(t.subrange(2 * x, 2 * y - 1), t[2 * y - 1]);
        let p = arith::product(t.subrange(2 * x, 2 * y - 2));
        let (a, b) = (t[2 * y - 2], t[2 * y - 1]);
        assert(p * (a * b) == p * a * b) by (nonlinear_arith);
    } else {
        assert(t.subrange(n + x, n + y) =~= t.subrange(2 * x, 2 * y));
    }
}

/// The product over a level of the tree is the entry next to the last one.
proof fn lemma_levels(v: Seq<int>, k: nat)
    requires
        pow2(k) <= v.len(),
    ensures
        range_product(
            product_table(v),
            2 * v.len() - 2 * pow2(k),
            2 * v.len() - pow2(k),
        ) == entry(v, 2 * v.len() - 2),
    decreases k,
{
    let t = product_table(v);
    let n = v.len() as int;
    if k == 0 {
        lemma2_to64();
        let s = t.subrange(2 * n - 2, 2 * n - 1);
        assert(s.drop_last() =~= Seq::<int>::empty());
        assert(arith::product(s.drop_last()) == 1);
        assert(arith::product(s) == 1 * s.last());
    } else {
        let j = (k - 1) as nat;
        mle::lemma_halves(k);
        lemma_levels(v, j);
        lemma_children(v, n - pow2(k), n - pow2(j));
    }
}

/// The table holds the product of all leaves, at `f(1, ..., 1, 0)`.
pub proof fn lemma_table_product(v: Seq<int>, k: nat)
    requires
        v.len() == pow2(k),
    ensures
        product_table(v)[2 * v.len() - 2] == arith::product(v),
{
    lemma_pow2_pos(k);
    lemma_levels(v, k);
    assert(product_table(v).subrange(0, v.len() as int) =~= v);
}

/// `f1`, `f0` and `fo` are the values of `f(1, x)`, `f(x, 0)` and `f(x, 1)` for a table with
/// `f(0, x) = v(x)` and `f(1, x) = f(x, 0) * f(x, 1)`, whose last entry is zero.
#[verifier::opaque]
pub open spec fn splits_table(
    v: Seq<int>,
    f1: Seq<int>,
    f0: Seq<int>,
    fo: Seq<int>,
    m: int,
) -> bool {
    let n = v.len() as int;
    &&& f1.len() == n && f0.len() == n && fo.len() == n
    &&& forall|x: int| 0 <= x < n ==> #[trigger] f1[x] == (f0[x] * fo[x]) % m
    &&& forall|x: int|
        0 <= x < n ==> #[trigger] f0[x] == if 2 * x < n {
            v[2 * x]
        } else {
            f1[2 * x - n]
        }
    &&& forall|x: int|
        0 <= x < n ==> #[trigger] fo[x] == if 2 * x + 1 < n {
            v[2 * x + 1]
        } else {
            f1[2 * x + 1 - n]
        }
    &&& fo[n - 1] == 0
}

/// The parts of the table of partial products, reduced.
proof fn lemma_splits_table(v: Seq<int>, m: int)
    requires
        m > 0,
        v.len() > 0,
        forall|i: int| 0 <= i < v.len() ==> 0 <= #[trigger] v[i] < m,
    ensures
        splits_table(
            v,
            arith::reduced(mle::high_half(product_table(v)), m),
            arith::reduced(mle::evens(product_table(v)), m),
            arith::reduced(mle::odds(product_table(v)), m),
            m,
        ),
{
    reveal(splits_table);
    let t = product_table(v);
    let n = v.len() as int;
    let f1 = arith::reduced(mle::high_half(t), m);
    let f0 = arith::reduced(mle::evens(t), m);
    let fo = arith::reduced(mle::odds(t), m);
    arith::lemma_reduced_fixed(0, m);
    assert(t.len() / 2 == n);
    assert forall|x: int| 0 <= x < n implies #[trigger] f1[x] == (f0[x] * fo[x]) % m by {
        lemma_table_recurrence(v, x);
        arith::lemma_reduce(t[2 * x], m);
        arith::lemma_reduce(t[2 * x + 1], m);
        arith::lemma_cong_mul(t[2 * x] % m, t[2 * x], t[2 * x + 1] % m, t[2 * x + 1], m);
    }
    assert forall|x: int| 0 <= x < n implies #[trigger] f0[x] == if 2 * x < n {
        v[2 * x]
    } else {
        f1[2 * x - n]
    } by {
        if 2 * x < n {
            arith::lemma_reduced_fixed(v[2 * x], m);
        }
    }
    assert forall|x: int| 0 <= x < n implies #[trigger] fo[x] == if 2 * x + 1 < n {
        v[2 * x + 1]
    } else {
        f1[2 * x + 1 - n]
    } by {
        if 2 * x + 1 < n {
            arith::lemma_reduced_fixed(v[2 * x + 1], m);
        }
    }
}

/// Splits the table of partial products of `v` into the polynomials `f(1, x)`,
/// `f(x, 0)` and `f(x, 1)`, and gives the product of all values of `v`.
pub fn v_into_f<F: JoltField>(v: &DensePolynomial<F>) -> (r: (
    DensePolynomial<F>,
    DensePolynomial<F>,
    DensePolynomial<F>,
    F,
))
    requires
        exists|k: nat| #[trigger] v.has_vars(k),
        2 * v@.len() <= usize::MAX,
    ensures
        r.0@ == arith::reduced(mle::high_half(product_table(v@)), F::modulus()),
        r.1@ == arith::reduced(mle::evens(product_table(v@)), F::modulus()),
        r.2@ == arith::reduced(mle::odds(product_table(v@)), F::modulus()),
        r.3@ == arith::product(v@) % F::modulus(),
        forall|k: nat|
            v.has_vars(k) ==> r.0.has_vars(k) && r.1.has_vars(k) && r.2.has_vars(k),
        splits_table(v@, r.0@, r.1@, r.2@, F::modulus()),
        r.3@ == r.1@[v@.len() - 1],
{
    let ghost k = choose|k: nat| #[trigger] v.has_vars(k);
    let ghost e = v@;
    let ghost m = F::modulus();
    let ghost t = product_table(e);
    let n = v.len();
    proof {
        F::lemma_modulus();
        v.lemma_has_vars(k);
        lemma_pow2_pos(k);
        math::lemma_log2_pow2(k);
        lemma_table_product(e, k);
    }
    let mut f_evals: Vec<F> = Vec::new();
    let mut i: usize = 0;
    while i < n
        invariant
            i <= n,
            n == e.len(),
            e == v@,
            m == F::modulus(),
            t == product_table(e),
            f_evals@.len() == i,
            forall|j: int| 0 <= j < i ==> (#[trigger] f_evals@[j])@ == t[j] % m,
        decreases n - i,
    {
        let x = v.get(i);
        proof {
            F::lemma_canonical(x);
            arith::lemma_reduced_fixed(x@, m);
        }
        f_evals.push(x);
        i = i + 1;
    }
    // An inner node is the product of its two children.
    let mut x: usize = 0;
    while x < n - 1
        invariant
            x <= n - 1,
            n >= 1,
            n == e.len(),
            2 * n <= usize::MAX,
            m == F::modulus(),
            m > 1,
            t == product_table(e),
            f_evals@.len() == n + x,
            forall|j: int| 0 <= j < n + x ==> (#[trigger] f_evals@[j])@ == t[j] % m,
        decreases n - 1 - x,
    {
        let y = f_evals[2 * x].mul(&f_evals[2 * x + 1]);
        proof {
            lemma_table_recurrence(e, x as int);
            arith::lemma_reduce(t[2 * x], m);
            arith::lemma_reduce(t[2 * x + 1], m);
            arith::lemma_cong_mul(t[2 * x] % m, t[2 * x], t[2 * x + 1] % m, t[2 * x + 1], m);
        }
        f_evals.push(y);
        x = x + 1;
    }
    // The last entry would be its own child: it is zero.
    f_evals.push(F::zero());
    proof {
        arith::lemma_reduced_fixed(0, m);
    }
    let product = f_evals[2 * n - 2];

    let mut f_1_x: Vec<F> = Vec::new();
    let mut f_x_0: Vec<F> = Vec::new();
    let mut f_x_1: Vec<F> = Vec::new();
    let mut j: usize = 0;
    while j < n
        invariant
            j <= n,
            n == e.len(),
            2 * n <= usize::MAX,
            m == F::modulus(),
            t == product_table(e),
            f_evals@.len() == 2 * n,
            forall|l: int| 0 <= l < 2 * n ==> (#[trigger] f_evals@[l])@ == t[l] % m,
            f_1_x@.len() == j,
            f_x_0@.len() == j,
            f_x_1@.len() == j,
            forall|l: int| 0 <= l < j ==> (#[trigger] f_1_x@[l])@ == t[n + l] % m,
            forall|l: int| 0 <= l < j ==> (#[trigger] f_x_0@[l])@ == t[2 * l] % m,
            forall|l: int| 0 <= l < j ==> (#[trigger] f_x_1@[l])@ == t[2 * l + 1] % m,
        decreases n - j,
    {
        f_1_x.push(f_evals[n + j]);
        f_x_0.push(f_evals[2 * j]);
        f_x_1.push(f_evals[2 * j + 1]);
        j = j + 1;
    }
    proof {
        assert(n == pow2(k));
        assert(field::values(f_1_x@) =~= arith::reduced(mle::high_half(t), m));
        assert(field::values(f_x_0@) =~= arith::reduced(mle::evens(t), m));
        assert(field::values(f_x_1@) =~= arith::reduced(mle::odds(t), m));
        assert forall|q: nat| v.has_vars(q) implies q == k by {
            v.lemma_has_vars(q);
            math::lemma_log2_pow2(q);
        }
        v.lemma_view_canonical();
        lemma_splits_table(e, m);
    }
    (DensePolynomial::new(f_1_x), DensePolynomial::new(f_x_0), DensePolynomial::new(f_x_1), product)
}

} // verus!
