//! The identity behind the quark sum-check.
//!
//! For every grand product, let `f` be the table of partial products of its leaves.
//! At every vertex `x` but the last, `eq(tau, x) * (f(1, x) - f(x, 0) * f(x, 1))` and
//! `eq(1, x) * f(x, 0)` vanish. At the last vertex the second is the product of the
//! leaves. So a random combination of these terms sums to the same combination of
//! the products.
use crate::arith;
use crate::combination;
use crate::combination::QuarkRule;
use crate::mle;
use crate::poly;
use crate::product_table;
use crate::sumcheck;
use crate::sumcheck::Summand;
use vstd::arithmetic::power2::*;
use vstd::prelude::*;

verus! {

/// The values of `f(1, x)` for each grand product, reduced.
pub open spec fn g_tables(leaves: Seq<Seq<int>>, m: int) -> Seq<Seq<int>> {
    Seq::new(
        leaves.len(),
        |i: int| arith::reduced(mle::high_half(product_table::product_table(leaves[i])), m),
    )
}

/// The product of the leaves of each grand product, reduced.
pub open spec fn products(leaves: Seq<Seq<int>>, m: int) -> Seq<int> {
    Seq::new(leaves.len(), |i: int| arith::product(leaves[i]) % m)
}

/// The values that the grand product with the leaves `v` adds to the quark sum-check:
/// those of `f(1, x)`, of `f(x, 0)` and of `f(x, 1)`, in this order.
pub open spec fn leaf_table(v: Seq<int>, part: int, m: int) -> Seq<int> {
    let f = product_table::product_table(v);
    if part == 0 {
        arith::reduced(mle::high_half(f), m)
    } else if part == 1 {
        arith::reduced(mle::evens(f), m)
    } else {
        arith::reduced(mle::odds(f), m)
    }
}

/// The polynomials of the quark sum-check: three for each grand product, then
/// `eq(tau, x)` and `eq(1, x)`.
pub open spec fn sumcheck_tables(leaves: Seq<Seq<int>>, tau: Seq<int>, m: int) -> Seq<Seq<int>> {
    let l = leaves.len() as int;
    Seq::new(
        3 * leaves.len() + 2,
        |j: int|
            if j < 3 * l {
                leaf_table(leaves[j / 3], j % 3, m)
            } else if j == 3 * l {
                arith::reduced(mle::chis(tau), m)
            } else {
                arith::reduced(mle::chis(mle::ones(tau.len())), m)
            },
    )
}

/// Where the polynomials of a grand product stand in the quark sum-check.
pub proof fn lemma_sumcheck_tables(leaves: Seq<Seq<int>>, tau: Seq<int>, i: int, m: int)
    requires
        0 <= i < leaves.len(),
    ensures
        ({
            let t = sumcheck_tables(leaves, tau, m);
            let l = leaves.len() as int;
            &&& t.len() == 3 * l + 2
            &&& t[3 * i] == leaf_table(leaves[i], 0, m)
            &&& t[3 * i + 1] == leaf_table(leaves[i], 1, m)
            &&& t[3 * i + 2] == leaf_table(leaves[i], 2, m)
            &&& t[3 * l] == arith::reduced(mle::chis(tau), m)
            &&& t[3 * l + 1] == arith::reduced(mle::chis(mle::ones(tau.len())), m)
        }),
{
    assert((3 * i) / 3 == i && (3 * i) % 3 == 0);
    assert((3 * i + 1) / 3 == i && (3 * i + 1) % 3 == 1);
    assert((3 * i + 2) / 3 == i && (3 * i + 2) % 3 == 2);
}

/// All polynomials of the quark sum-check have the same number of variables.
pub proof fn lemma_sumcheck_tables_vars(leaves: Seq<Seq<int>>, tau: Seq<int>, m: int)
    requires
        poly::tables_have_vars(leaves, tau.len()),
    ensures
        poly::tables_have_vars(sumcheck_tables(leaves, tau, m), tau.len()),
        poly::tables_have_vars(g_tables(leaves, m), tau.len()),
{
    let t = sumcheck_tables(leaves, tau, m);
    let l = leaves.len() as int;
    mle::lemma_chis_len(tau);
    mle::lemma_chis_len(mle::ones(tau.len()));
    assert forall|k: int| 0 <= k < t.len() implies (#[trigger] t[k]).len() == pow2(tau.len()) by {
        if k < 3 * l {
            assert(leaves[k / 3].len() == pow2(tau.len()));
        }
    }
    let g = g_tables(leaves, m);
    assert forall|k: int| 0 <= k < g.len() implies (#[trigger] g[k]).len() == pow2(tau.len()) by {
        assert(leaves[k].len() == pow2(tau.len()));
    }
}

/// What one grand product adds at a vertex: nothing but at the last vertex, and
/// there its product.
proof fn lemma_vertex_term(v: Seq<int>, tau: Seq<int>, c: int, x: int, m: int)
    requires
        m > 1,
        v.len() == pow2(tau.len()),
        0 <= x < v.len(),
    ensures
        arith::cong(
            combination::quark_term(
                c,
                arith::reduced(mle::chis(tau), m)[x],
                arith::reduced(mle::chis(mle::ones(tau.len())), m)[x],
                leaf_table(v, 0, m)[x],
                leaf_table(v, 1, m)[x],
                leaf_table(v, 2, m)[x],
            ),
            if x == v.len() - 1 {
                (arith::product(v) % m) * c
            } else {
                0
            },
            m,
        ),
{
    let f = product_table::product_table(v);
    let n = v.len() as int;
    mle::lemma_chis_len(tau);
    mle::lemma_chis_ones(tau.len());
    product_table::lemma_table_recurrence(v, x);
    let eq = arith::reduced(mle::chis(tau), m)[x];
    let one = arith::reduced(mle::chis(mle::ones(tau.len())), m)[x];
    let f1 = leaf_table(v, 0, m)[x];
    let f0 = leaf_table(v, 1, m)[x];
    let fo = leaf_table(v, 2, m)[x];
    assert(f.len() / 2 == n);
    assert(f1 == f[n + x] % m && f0 == f[2 * x] % m && fo == f[2 * x + 1] % m);
    arith::lemma_reduce(f[n + x], m);
    arith::lemma_reduce(f[2 * x], m);
    arith::lemma_reduce(f[2 * x + 1], m);
    arith::lemma_reduced_fixed(0, m);
    arith::lemma_reduced_fixed(1, m);
    arith::lemma_cong_mul(f0, f[2 * x], fo, f[2 * x + 1], m);
    arith::lemma_cong_sub(f1, f[n + x], f0 * fo, f[2 * x] * f[2 * x + 1], m);
    arith::lemma_cong_mul(eq, eq, f1 - f0 * fo, 0, m);
    assert(eq * 0 == 0);
    let inner = eq * (f1 - f0 * fo) + one * f0;
    if x == n - 1 {
        assert(one == 1);
        product_table::lemma_table_product(v, tau.len());
        assert(f0 == arith::product(v) % m);
        assert(1 * f0 == f0);
        arith::lemma_cong_add(eq * (f1 - f0 * fo), 0, one * f0, f0, m);
        arith::lemma_cong_mul(c, c, inner, f0, m);
        assert(c * f0 == f0 * c) by (nonlinear_arith);
    } else {
        assert(one == 0);
        assert(0 * f0 == 0);
        arith::lemma_cong_add(eq * (f1 - f0 * fo), 0, one * f0, 0, m);
        arith::lemma_cong_mul(c, c, inner, 0, m);
        assert(c * 0 == 0);
    }
}

/// The quark sum-check sums to the combination of the products by the coefficients
/// `rho`.
pub proof fn lemma_quark_total(leaves: Seq<Seq<int>>, tau: Seq<int>, rho: Seq<int>, m: int)
    requires
        m > 1,
        rho.len() == leaves.len(),
        poly::tables_have_vars(leaves, tau.len()),
    ensures
        arith::cong(
            sumcheck::total(
                QuarkRule { rho },
                sumcheck_tables(leaves, tau, m),
                tau.len(),
            ),
            combination::combined(products(leaves, m), rho),
            m,
        ),
{
    let rule = QuarkRule { rho };
    let t = sumcheck_tables(leaves, tau, m);
    let n = pow2(tau.len());
    let l = leaves.len() as int;
    lemma_pow2_pos(tau.len());
    let f = |x: int| rule.value(sumcheck::column(t, x));
    let p = products(leaves, m);
    let zero = |i: int| 0int;
    let claim = |i: int| p[i] * rho[i];
    arith::lemma_sum_zero(leaves.len());
    assert forall|x: int| 0 <= x < n implies arith::cong(
        #[trigger] f(x),
        if x == n - 1 {
            arith::sum(leaves.len(), claim)
        } else {
            0
        },
        m,
    ) by {
        let v = sumcheck::column(t, x);
        let term = |i: int|
            combination::quark_term(
                rho[i],
                v[3 * l],
                v[3 * l + 1],
                v[3 * i],
                v[3 * i + 1],
                v[3 * i + 2],
            );
        let want = if x == n - 1 {
            claim
        } else {
            zero
        };
        assert forall|i: int| 0 <= i < l implies arith::cong(#[trigger] term(i), want(i), m) by {
            lemma_sumcheck_tables(leaves, tau, i, m);
            assert(leaves[i].len() == n);
            lemma_vertex_term(leaves[i], tau, rho[i], x, m);
        }
        arith::lemma_sum_cong(leaves.len(), term, want, m);
        assert(f(x) == arith::sum(leaves.len(), term));
    }
    arith::lemma_sum_only_last(n, f, m);
    assert(arith::cong(f(n - 1), arith::sum(leaves.len(), claim), m));
}

/// The values of `f(1, x)`, of `f(x, 0)` and of `f(x, 1)`, in this order, for the table `f`
/// with `f(0, x) = h(x)` and `f(1, x) = g(x)`.
pub open spec fn joined_table(h: Seq<int>, g: Seq<int>, part: int, m: int) -> Seq<int> {
    if part == 0 {
        g
    } else if part == 1 {
        arith::reduced(mle::evens(h + g), m)
    } else {
        arith::reduced(mle::odds(h + g), m)
    }
}

/// The polynomials of the quark sum-check for the leaves `h` and any `g`, which need not be
/// the partial products of the leaves.
pub open spec fn joined_tables(
    h: Seq<Seq<int>>,
    g: Seq<Seq<int>>,
    tau: Seq<int>,
    m: int,
) -> Seq<Seq<int>> {
    let l = h.len() as int;
    Seq::new(
        3 * h.len() + 2,
        |j: int|
            if j < 3 * l {
                joined_table(h[j / 3], g[j / 3], j % 3, m)
            } else if j == 3 * l {
                arith::reduced(mle::chis(tau), m)
            } else {
                arith::reduced(mle::chis(mle::ones(tau.len())), m)
            },
    )
}

/// Where the polynomials of a grand product stand in the quark sum-check.
pub proof fn lemma_joined_tables(
    h: Seq<Seq<int>>,
    g: Seq<Seq<int>>,
    tau: Seq<int>,
    i: int,
    m: int,
)
    requires
        0 <= i < h.len(),
    ensures
        ({
            let t = joined_tables(h, g, tau, m);
            let l = h.len() as int;
            &&& t.len() == 3 * l + 2
            &&& t[3 * i] == joined_table(h[i], g[i], 0, m)
            &&& t[3 * i + 1] == joined_table(h[i], g[i], 1, m)
            &&& t[3 * i + 2] == joined_table(h[i], g[i], 2, m)
            &&& t[3 * l] == arith::reduced(mle::chis(tau), m)
            &&& t[3 * l + 1] == arith::reduced(mle::chis(mle::ones(tau.len())), m)
        }),
{
    assert((3 * i) / 3 == i && (3 * i) % 3 == 0);
    assert((3 * i + 1) / 3 == i && (3 * i + 1) % 3 == 1);
    assert((3 * i + 2) / 3 == i && (3 * i + 2) % 3 == 2);
}

/// All polynomials of the quark sum-check have the same number of variables.
pub proof fn lemma_joined_tables_vars(
    h: Seq<Seq<int>>,
    g: Seq<Seq<int>>,
    tau: Seq<int>,
    m: int,
)
    requires
        g.len() == h.len(),
        poly::tables_have_vars(h, tau.len()),
        poly::tables_have_vars(g, tau.len()),
    ensures
        poly::tables_have_vars(joined_tables(h, g, tau, m), tau.len()),
{
    let t = joined_tables(h, g, tau, m);
    let l = h.len() as int;
    mle::lemma_chis_len(tau);
    mle::lemma_chis_len(mle::ones(tau.len()));
    assert forall|k: int| 0 <= k < t.len() implies (#[trigger] t[k]).len() == pow2(tau.len()) by {
        if k < 3 * l {
            assert(h[k / 3].len() == pow2(tau.len()));
            assert(g[k / 3].len() == pow2(tau.len()));
        }
    }
}

/// The honest polynomials are those for the leaves and their partial products.
pub proof fn lemma_honest_tables(leaves: Seq<Seq<int>>, tau: Seq<int>, m: int)
    requires
        m > 0,
    ensures
        sumcheck_tables(leaves, tau, m) == joined_tables(leaves, g_tables(leaves, m), tau, m),
{
    let a = sumcheck_tables(leaves, tau, m);
    let b = joined_tables(leaves, g_tables(leaves, m), tau, m);
    assert forall|j: int| 0 <= j < a.len() implies a[j] == b[j] by {
        if j < 3 * leaves.len() {
            lemma_honest_table(leaves[j / 3], j % 3, m);
        }
    }
    assert(a =~= b);
}

proof fn lemma_honest_table(v: Seq<int>, part: int, m: int)
    requires
        m > 0,
    ensures
        leaf_table(v, part, m) == joined_table(v, leaf_table(v, 0, m), part, m),
{
    let f = product_table::product_table(v);
    let g = leaf_table(v, 0, m);
    let n = v.len() as int;
    assert(f.len() / 2 == n);
    assert forall|i: int| 0 <= i < 2 * n implies f[i] % m == (v + g)[i] % m by {
        if i >= n {
            assert((v + g)[i] == f[i] % m);
            arith::lemma_reduce(f[i], m);
        }
    }
    assert(arith::reduced(mle::evens(f), m) =~= arith::reduced(mle::evens(v + g), m));
    assert(arith::reduced(mle::odds(f), m) =~= arith::reduced(mle::odds(v + g), m));
}

/// The values `f(x, 0)` and `f(x, 1)` at a point `x = (x_1, x')` from those of `h` and `g`:
/// `f(x, 0) = h(x', 0) + x_1 * (g(x', 0) - h(x', 0))`, and `f(x, 1)` likewise.
pub proof fn lemma_joined_values(h: Seq<int>, g: Seq<int>, x: Seq<int>, m: int)
    requires
        m > 0,
        x.len() > 0,
        h.len() == pow2(x.len()),
        g.len() == pow2(x.len()),
    ensures
        ({
            let p0 = x.drop_first().push(0);
            let p1 = x.drop_first().push(1);
            let (h0, g0) = (mle::eval(h, p0) % m, mle::eval(g, p0) % m);
            let (h1, g1) = (mle::eval(h, p1) % m, mle::eval(g, p1) % m);
            &&& mle::eval(joined_table(h, g, 1, m), x) % m == (h0 + x[0] * (g0 - h0)) % m
            &&& mle::eval(joined_table(h, g, 2, m), x) % m == (h1 + x[0] * (g1 - h1)) % m
        }),
{
    let f = h + g;
    let n = x.len();
    let rp = x.drop_first();
    let (p0, p1) = (rp.push(0), rp.push(1));
    mle::lemma_halves(n);
    mle::lemma_halves(n + 1);
    assert(f.len() == pow2(n + 1));
    assert(mle::low_half(f) =~= h);
    assert(mle::high_half(f) =~= g);
    mle::lemma_eval_push(f, x, 0);
    assert(seq![x[0]] + p0 =~= x.push(0));
    assert(seq![x[0]] + p1 =~= x.push(1));
    mle::lemma_eval_prepend(f, p0, x[0]);
    mle::lemma_eval_prepend(f, p1, x[0]);
    arith::lemma_reduced_cong(mle::evens(f), m);
    arith::lemma_reduced_cong(mle::odds(f), m);
    mle::lemma_eval_cong(arith::reduced(mle::evens(f), m), mle::evens(f), x, x, m);
    mle::lemma_eval_cong(arith::reduced(mle::odds(f), m), mle::odds(f), x, x, m);
    lemma_point_value(mle::eval(h, p0), mle::eval(g, p0), x[0], m);
    lemma_point_value(mle::eval(h, p1), mle::eval(g, p1), x[0], m);
}

proof fn lemma_point_value(a: int, b: int, t: int, m: int)
    requires
        m > 0,
    ensures
        (a + t * (b - a)) % m == (a % m + t * (b % m - a % m)) % m,
{
    arith::lemma_reduce(a, m);
    arith::lemma_reduce(b, m);
    arith::lemma_cong_line(a, a % m, b, b % m, t, t, m);
}

/// What one grand product adds to the sum of the quark sum-check, but for its coefficient: by
/// how much `g` fails to hold the products, at every vertex and weighted by `eq(tau, x)`, and
/// the entry `f(1, ..., 1, 0)`.
pub open spec fn checked_product(h: Seq<int>, g: Seq<int>, tau: Seq<int>) -> int {
    let f = h + g;
    arith::sum(
        pow2(tau.len()),
        |x: int| mle::chis(tau)[x] * (g[x] - f[2 * x] * f[2 * x + 1]),
    ) + f[2 * pow2(tau.len()) - 2]
}

/// For the partial products, that is the product of the leaves.
pub proof fn lemma_checked_product(v: Seq<int>, tau: Seq<int>, m: int)
    requires
        m > 0,
        v.len() == pow2(tau.len()),
    ensures
        arith::cong(
            checked_product(v, leaf_table(v, 0, m), tau),
            arith::product(v),
            m,
        ),
{
    let p = product_table::product_table(v);
    let g = leaf_table(v, 0, m);
    let f = v + g;
    let n = pow2(tau.len());
    lemma_pow2_pos(tau.len());
    assert(p.len() / 2 == n);
    let d = |x: int| mle::chis(tau)[x] * (g[x] - f[2 * x] * f[2 * x + 1]);
    let zero = |x: int| 0int;
    assert forall|i: int| 0 <= i < 2 * n implies arith::cong(#[trigger] f[i], p[i], m) by {
        if i >= n {
            arith::lemma_reduce(p[i], m);
        }
    }
    assert forall|x: int| 0 <= x < n implies arith::cong(#[trigger] d(x), zero(x), m) by {
        product_table::lemma_table_recurrence(v, x);
        assert(arith::cong(f[2 * x], p[2 * x], m));
        assert(arith::cong(f[2 * x + 1], p[2 * x + 1], m));
        assert(arith::cong(f[n + x], p[n + x], m));
        assert(f[n + x] == g[x]);
        let c = mle::chis(tau)[x];
        arith::lemma_cong_mul(f[2 * x], p[2 * x], f[2 * x + 1], p[2 * x + 1], m);
        arith::lemma_cong_sub(
            g[x],
            p[n + x],
            f[2 * x] * f[2 * x + 1],
            p[2 * x] * p[2 * x + 1],
            m,
        );
        arith::lemma_cong_mul(c, c, g[x] - f[2 * x] * f[2 * x + 1], 0, m);
        assert(c * 0 == 0);
    }
    arith::lemma_sum_cong(n, d, zero, m);
    arith::lemma_sum_zero(n);
    product_table::lemma_table_product(v, tau.len());
    assert(arith::cong(f[2 * n - 2], p[2 * n - 2], m));
    arith::lemma_cong_add(arith::sum(n, d), 0, f[2 * n - 2], p[2 * n - 2], m);
}

proof fn lemma_one_total(h: Seq<int>, g: Seq<int>, tau: Seq<int>, c: int, m: int)
    requires
        m > 1,
        h.len() == pow2(tau.len()),
        g.len() == pow2(tau.len()),
    ensures
        ({
            let eq = arith::reduced(mle::chis(tau), m);
            let one = arith::reduced(mle::chis(mle::ones(tau.len())), m);
            let f1 = joined_table(h, g, 0, m);
            let f0 = joined_table(h, g, 1, m);
            let fo = joined_table(h, g, 2, m);
            arith::cong(
                arith::sum(
                    pow2(tau.len()),
                    |x: int| combination::quark_term(c, eq[x], one[x], f1[x], f0[x], fo[x]),
                ),
                c * checked_product(h, g, tau),
                m,
            )
        }),
{
    let eq = arith::reduced(mle::chis(tau), m);
    let one = arith::reduced(mle::chis(mle::ones(tau.len())), m);
    let f1 = joined_table(h, g, 0, m);
    let f0 = joined_table(h, g, 1, m);
    let fo = joined_table(h, g, 2, m);
    let f = h + g;
    let n = pow2(tau.len());
    let chi = mle::chis(tau);
    lemma_pow2_pos(tau.len());
    mle::lemma_chis_len(tau);
    mle::lemma_chis_ones(tau.len());
    let u = mle::chis(mle::ones(tau.len()));
    let term = |x: int| combination::quark_term(c, eq[x], one[x], f1[x], f0[x], fo[x]);
    let defect = |x: int| chi[x] * (g[x] - f[2 * x] * f[2 * x + 1]);
    let mark = |x: int| u[x] * f[2 * x];
    let both = |x: int| defect(x) + mark(x);
    let want = |x: int| c * both(x);
    assert forall|x: int| 0 <= x < n implies arith::cong(#[trigger] term(x), want(x), m) by {
        assert(f0[x] == f[2 * x] % m && fo[x] == f[2 * x + 1] % m);
        arith::lemma_reduce(f[2 * x], m);
        arith::lemma_reduce(f[2 * x + 1], m);
        arith::lemma_reduce(chi[x], m);
        arith::lemma_reduce(u[x], m);
        combination::lemma_quark_term_cong(
            c,
            (eq[x], one[x], f1[x], f0[x], fo[x]),
            (chi[x], u[x], g[x], f[2 * x], f[2 * x + 1]),
            m,
        );
    }
    arith::lemma_sum_cong(n, term, want, m);
    arith::lemma_sum_scale(n, c, both);
    arith::lemma_sum_add(n, defect, mark);
    assert forall|x: int| 0 <= x < n - 1 implies arith::cong(#[trigger] mark(x), 0, m) by {
        assert(u[x] == 0);
        assert(0 * f[2 * x] == 0);
    }
    arith::lemma_sum_only_last(n, mark, m);
    assert(u[n - 1] == 1);
    assert(mark(n - 1) == f[2 * n - 2]);
    arith::lemma_cong_add(
        arith::sum(n, defect),
        arith::sum(n, defect),
        arith::sum(n, mark),
        f[2 * n - 2],
        m,
    );
    arith::lemma_cong_mul(c, c, arith::sum(n, both), checked_product(h, g, tau), m);
}

/// The quark sum-check for the leaves `h` and any `g` sums to the combination of what each
/// grand product adds.
pub proof fn lemma_joined_total(
    h: Seq<Seq<int>>,
    g: Seq<Seq<int>>,
    tau: Seq<int>,
    rho: Seq<int>,
    m: int,
)
    requires
        m > 1,
        rho.len() == h.len(),
        g.len() == h.len(),
        poly::tables_have_vars(h, tau.len()),
        poly::tables_have_vars(g, tau.len()),
    ensures
        arith::cong(
            sumcheck::total((QuarkRule { rho }), joined_tables(h, g, tau, m), tau.len()),
            arith::sum(h.len(), |i: int| rho[i] * checked_product(h[i], g[i], tau)),
            m,
        ),
{
    let rule = QuarkRule { rho };
    let t = joined_tables(h, g, tau, m);
    let n = pow2(tau.len());
    let l = h.len();
    let li = l as int;
    let eq = arith::reduced(mle::chis(tau), m);
    let one = arith::reduced(mle::chis(mle::ones(tau.len())), m);
    let f = |x: int, i: int|
        combination::quark_term(
            rho[i],
            eq[x],
            one[x],
            joined_table(h[i], g[i], 0, m)[x],
            joined_table(h[i], g[i], 1, m)[x],
            joined_table(h[i], g[i], 2, m)[x],
        );
    let values = |x: int| rule.value(sumcheck::column(t, x));
    let inner = |x: int| arith::sum(l, |i: int| f(x, i));
    assert forall|x: int| 0 <= x < n implies #[trigger] values(x) == inner(x) by {
        let v = sumcheck::column(t, x);
        let a = |i: int|
            combination::quark_term(
                rho[i],
                v[3 * li],
                v[3 * li + 1],
                v[3 * i],
                v[3 * i + 1],
                v[3 * i + 2],
            );
        let b = |i: int| f(x, i);
        assert forall|i: int| 0 <= i < l implies #[trigger] a(i) == b(i) by {
            lemma_joined_tables(h, g, tau, i, m);
        }
        arith::lemma_sum_ext(l, a, b);
        assert(values(x) == arith::sum(l, a));
    }
    arith::lemma_sum_ext(n, values, inner);
    arith::lemma_sum_swap(n, l, f);
    let columns = |i: int| arith::sum(n, |x: int| f(x, i));
    let want = |i: int| rho[i] * checked_product(h[i], g[i], tau);
    assert forall|i: int| 0 <= i < l implies arith::cong(#[trigger] columns(i), want(i), m) by {
        assert(h[i].len() == n && g[i].len() == n);
        lemma_one_total(h[i], g[i], tau, rho[i], m);
        let c = rho[i];
        let (f1, f0, fo) = (
            joined_table(h[i], g[i], 0, m),
            joined_table(h[i], g[i], 1, m),
            joined_table(h[i], g[i], 2, m),
        );
        let p = |x: int| combination::quark_term(c, eq[x], one[x], f1[x], f0[x], fo[x]);
        let k = |x: int| f(x, i);
        arith::lemma_sum_ext(n, k, p);
    }
    arith::lemma_sum_cong(l, columns, want, m);
}

} // verus!
