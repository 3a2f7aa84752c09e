//! Multilinear polynomials over the integers, given by their values on the
//! Boolean hypercube.
//!
//! The value at the point `(b_0, ..., b_{n-1})` stands at the index whose binary
//! digits are `b_0 ... b_{n-1}`, the most significant one first.
use crate::arith;
use vstd::arithmetic::power2::*;
use vstd::prelude::*;

verus! {

/// The points `a[i] + t * (b[i] - a[i])` on the lines through `a[i]` and `b[i]`.
pub open spec fn line(a: Seq<int>, b: Seq<int>, t: int) -> Seq<int> {
    Seq::new(a.len(), |i: int| a[i] + t * (b[i] - a[i]))
}

/// The values with the first variable at zero.
pub open spec fn low_half(e: Seq<int>) -> Seq<int> {
    Seq::new(e.len() / 2, |i: int| e[i])
}

/// The values with the first variable at one.
pub open spec fn high_half(e: Seq<int>) -> Seq<int> {
    Seq::new(e.len() / 2, |i: int| e[e.len() / 2 + i])
}

/// The values with the last variable at zero.
pub open spec fn evens(e: Seq<int>) -> Seq<int> {
    Seq::new(e.len() / 2, |i: int| e[2 * i])
}

/// The values with the last variable at one.
pub open spec fn odds(e: Seq<int>) -> Seq<int> {
    Seq::new(e.len() / 2, |i: int| e[2 * i + 1])
}

/// The values left when the first variable is bound to `t`.
pub open spec fn bind_first(e: Seq<int>, t: int) -> Seq<int> {
    line(low_half(e), high_half(e), t)
}

/// The values left when the last variable is bound to `t`.
pub open spec fn bind_last(e: Seq<int>, t: int) -> Seq<int> {
    line(evens(e), odds(e), t)
}

/// The multilinear polynomial with the values `e`, at the point `r`.
pub open spec fn eval(e: Seq<int>, r: Seq<int>) -> int
    decreases r.len(),
{
    if r.len() == 0 {
        e[0]
    } else {
        eval(bind_first(e, r[0]), r.drop_first())
    }
}

/// The Lagrange basis of the hypercube at `r`: the entry at index `i` is the
/// polynomial that is one at the vertex `i` and zero at every other vertex.
pub open spec fn chis(r: Seq<int>) -> Seq<int>
    decreases r.len(),
{
    if r.len() == 0 {
        seq![1int]
    } else {
        split_last(chis(r.drop_last()), r.last())
    }
}

/// Each entry `s[i]` split into `s[i] * (1 - t)` and `s[i] * t`.
pub open spec fn split_last(s: Seq<int>, t: int) -> Seq<int> {
    Seq::new(2 * s.len(), |i: int|
        if i % 2 == 0 {
            s[i / 2] - s[i / 2] * t
        } else {
            s[i / 2] * t
        })
}

/// The polynomial that tells whether two vertices are the same:
/// the product of `x[j] * y[j] + (1 - x[j]) * (1 - y[j])`.
pub open spec fn eq_at(x: Seq<int>, y: Seq<int>) -> int
    decreases x.len(),
{
    if x.len() == 0 {
        1
    } else {
        eq_at(x.drop_last(), y.drop_last()) * (x.last() * y.last() + (1 - x.last()) * (1
            - y.last()))
    }
}

/// The vector of `n` ones.
pub open spec fn ones(n: nat) -> Seq<int> {
    Seq::new(n, |i: int| 1int)
}

/// Half of a power of two is the power before it.
pub proof fn lemma_halves(n: nat)
    requires
        n > 0,
    ensures
        pow2(n) == 2 * pow2((n - 1) as nat),
        pow2(n) / 2 == pow2((n - 1) as nat),
        pow2((n - 1) as nat) >= 1,
{
    lemma_pow2_unfold(n);
    lemma_pow2_pos((n - 1) as nat);
}

/// The two ways to bind a variable commute.
proof fn lemma_bind_commutes(e: Seq<int>, s: int, t: int, n: nat)
    requires
        n >= 2,
        e.len() == pow2(n),
    ensures
        bind_last(bind_first(e, s), t) == bind_first(bind_last(e, t), s),
{
    lemma_halves(n);
    lemma_halves((n - 1) as nat);
    let h = pow2((n - 2) as nat) as int;
    assert forall|i: int| 0 <= i < h implies bind_last(bind_first(e, s), t)[i] == bind_first(
        bind_last(e, t),
        s,
    )[i] by {
        let a = e[2 * i];
        let b = e[2 * i + 1];
        let c = e[2 * h + 2 * i];
        let d = e[2 * h + 2 * i + 1];
        assert(bind_first(e, s)[2 * i] == a + s * (c - a));
        assert(bind_first(e, s)[2 * i + 1] == b + s * (d - b));
        assert(bind_last(e, t)[i] == a + t * (b - a));
        assert(2 * (h + i) == 2 * h + 2 * i);
        assert(bind_last(e, t)[h + i] == c + t * (d - c));
        assert((a + s * (c - a)) + t * ((b + s * (d - b)) - (a + s * (c - a))) == (a + t * (b - a))
            + s * ((c + t * (d - c)) - (a + t * (b - a)))) by (nonlinear_arith);
    }
    assert(bind_last(bind_first(e, s), t) =~= bind_first(bind_last(e, t), s));
}

/// Binding the last variable first gives the same value.
pub proof fn lemma_eval_last(e: Seq<int>, r: Seq<int>)
    requires
        r.len() > 0,
        e.len() == pow2(r.len()),
    ensures
        eval(e, r) == eval(bind_last(e, r.last()), r.drop_last()),
    decreases r.len(),
{
    lemma_halves(r.len());
    if r.len() == 1 {
        lemma2_to64();
        assert(bind_first(e, r[0])[0] == bind_last(e, r[0])[0]);
        reveal_with_fuel(eval, 2);
    } else {
        let e1 = bind_first(e, r[0]);
        lemma_eval_last(e1, r.drop_first());
        lemma_bind_commutes(e, r[0], r.last(), r.len());
        assert(r.drop_first().drop_last() =~= r.drop_last().drop_first());
        assert(r.drop_first().last() == r.last());
        assert(r.drop_last()[0] == r[0]);
    }
}

/// A polynomial whose values lie on lines takes its own values on lines.
pub proof fn lemma_eval_line(a: Seq<int>, b: Seq<int>, t: int, r: Seq<int>)
    requires
        a.len() == pow2(r.len()),
        b.len() == pow2(r.len()),
    ensures
        eval(line(a, b, t), r) == eval(a, r) + t * (eval(b, r) - eval(a, r)),
    decreases r.len(),
{
    if r.len() == 0 {
        lemma2_to64();
    } else {
        lemma_halves(r.len());
        let s = r[0];
        let h = a.len() / 2;
        let l = bind_first(line(a, b, t), s);
        let k = line(bind_first(a, s), bind_first(b, s), t);
        assert forall|i: int| 0 <= i < h implies l[i] == k[i] by {
            let (a0, a1, b0, b1) = (a[i], a[h + i], b[i], b[h + i]);
            assert((a0 + t * (b0 - a0)) + s * ((a1 + t * (b1 - a1)) - (a0 + t * (b0 - a0))) == (a0
                + s * (a1 - a0)) + t * ((b0 + s * (b1 - b0)) - (a0 + s * (a1 - a0))))
                by (nonlinear_arith);
        }
        assert(l =~= k);
        lemma_eval_line(bind_first(a, s), bind_first(b, s), t, r.drop_first());
    }
}

/// Scaling the values scales the polynomial.
pub proof fn lemma_eval_scale(e: Seq<int>, c: int, r: Seq<int>)
    requires
        e.len() == pow2(r.len()),
    ensures
        eval(Seq::new(e.len(), |i: int| c * e[i]), r) == c * eval(e, r),
    decreases r.len(),
{
    let ce = Seq::new(e.len(), |i: int| c * e[i]);
    if r.len() == 0 {
        lemma2_to64();
    } else {
        lemma_halves(r.len());
        let s = r[0];
        let b = bind_first(e, s);
        let cb = Seq::new(b.len(), |i: int| c * b[i]);
        let h = e.len() / 2;
        assert forall|i: int| 0 <= i < h implies bind_first(ce, s)[i] == cb[i] by {
            let (x, y) = (e[i], e[h + i]);
            assert(c * x + s * (c * y - c * x) == c * (x + s * (y - x))) by (nonlinear_arith);
        }
        assert(bind_first(ce, s) =~= cb);
        lemma_eval_scale(b, c, r.drop_first());
    }
}

/// The value at a point depends on the residues of the data alone.
pub proof fn lemma_eval_cong(a: Seq<int>, b: Seq<int>, r: Seq<int>, s: Seq<int>, m: int)
    requires
        m > 0,
        a.len() == pow2(r.len()),
        arith::cong_seq(a, b, m),
        arith::cong_seq(r, s, m),
    ensures
        arith::cong(eval(a, r), eval(b, s), m),
    decreases r.len(),
{
    if r.len() == 0 {
        lemma2_to64();
        assert(arith::cong(a[0], b[0], m));
    } else {
        lemma_halves(r.len());
        assert(arith::cong(r[0], s[0], m));
        lemma_bind_first_cong(a, b, r[0], s[0], m);
        assert(arith::cong_seq(r.drop_first(), s.drop_first(), m)) by {
            assert forall|i: int| 0 <= i < r.len() - 1 implies arith::cong(
                #[trigger] r.drop_first()[i],
                s.drop_first()[i],
                m,
            ) by {
                assert(arith::cong(r[i + 1], s[i + 1], m));
            }
        }
        lemma_eval_cong(bind_first(a, r[0]), bind_first(b, s[0]), r.drop_first(), s.drop_first(), m);
    }
}

/// Binding a variable depends on the residues alone.
pub proof fn lemma_bind_first_cong(a: Seq<int>, b: Seq<int>, t: int, u: int, m: int)
    requires
        m > 0,
        arith::cong_seq(a, b, m),
        arith::cong(t, u, m),
    ensures
        arith::cong_seq(bind_first(a, t), bind_first(b, u), m),
{
    let h = a.len() / 2;
    assert forall|i: int| 0 <= i < h implies arith::cong(
        #[trigger] bind_first(a, t)[i],
        bind_first(b, u)[i],
        m,
    ) by {
        assert(arith::cong(a[i], b[i], m));
        assert(arith::cong(a[h + i], b[h + i], m));
        arith::lemma_cong_line(a[i], b[i], a[h + i], b[h + i], t, u, m);
    }
}

/// The basis has one entry for each vertex.
pub proof fn lemma_chis_len(r: Seq<int>)
    ensures
        chis(r).len() == pow2(r.len()),
    decreases r.len(),
{
    if r.len() == 0 {
        lemma2_to64();
    } else {
        lemma_chis_len(r.drop_last());
        lemma_halves(r.len());
    }
}

/// The polynomial is the combination of the Lagrange basis by its values.
pub proof fn lemma_eval_is_dot(e: Seq<int>, r: Seq<int>)
    requires
        e.len() == pow2(r.len()),
    ensures
        eval(e, r) == arith::dot(e, chis(r)),
    decreases r.len(),
{
    lemma_chis_len(r);
    if r.len() == 0 {
        lemma2_to64();
        let c = chis(r);
        let f = |i: int| e[i] * c[i];
        assert(arith::sum(0, f) == 0);
        assert(arith::sum(1, f) == f(0));
        assert(e[0] * c[0] == e[0]) by {
            assert(c[0] == 1);
        }
        assert(arith::dot(e, c) == arith::sum(1, f));
    } else {
        lemma_halves(r.len());
        let t = r.last();
        let s = chis(r.drop_last());
        let b = bind_last(e, t);
        lemma_eval_last(e, r);
        lemma_eval_is_dot(b, r.drop_last());
        lemma_chis_len(r.drop_last());
        let c = chis(r);
        let f = |i: int| e[i] * c[i];
        let g = |i: int| f(2 * i) + f(2 * i + 1);
        let h = |i: int| b[i] * s[i];
        arith::lemma_sum_pairs(s.len(), f);
        assert forall|i: int| 0 <= i < s.len() implies #[trigger] g(i) == h(i) by {
            assert((2 * i) / 2 == i && (2 * i + 1) / 2 == i);
            let (x, y, v) = (e[2 * i], e[2 * i + 1], s[i]);
            assert(x * (v - v * t) + y * (v * t) == (x + t * (y - x)) * v) by (nonlinear_arith);
        }
        arith::lemma_sum_ext(s.len(), g, h);
        assert(arith::dot(e, c) == arith::sum(e.len(), f));
        assert(arith::dot(b, s) == arith::sum(s.len(), h));
    }
}

/// The basis at `x`, seen as values on the hypercube, is the polynomial `eq_at(x, .)`.
pub proof fn lemma_eval_chis(x: Seq<int>, r: Seq<int>)
    requires
        x.len() == r.len(),
    ensures
        eval(chis(x), r) == eq_at(r, x),
    decreases r.len(),
{
    lemma_chis_len(x);
    if r.len() > 0 {
        lemma_halves(r.len());
        let s = chis(x.drop_last());
        let t = x.last();
        let a = r.last();
        let c = a * t + (1 - a) * (1 - t);
        lemma_chis_len(x.drop_last());
        lemma_eval_last(chis(x), r);
        let b = bind_last(chis(x), a);
        let cs = Seq::new(s.len(), |i: int| c * s[i]);
        assert forall|i: int| 0 <= i < s.len() implies b[i] == cs[i] by {
            assert((2 * i) / 2 == i && (2 * i + 1) / 2 == i);
            let v = s[i];
            assert((v - v * t) + a * (v * t - (v - v * t)) == (a * t + (1 - a) * (1 - t)) * v)
                by (nonlinear_arith);
        }
        assert(b =~= cs);
        lemma_eval_scale(s, c, r.drop_last());
        lemma_eval_chis(x.drop_last(), r.drop_last());
        assert(c * eq_at(r.drop_last(), x.drop_last()) == eq_at(r.drop_last(), x.drop_last()) * c)
            by (nonlinear_arith);
    }
}

/// The basis at the all-ones vertex marks that vertex alone.
pub proof fn lemma_chis_ones(n: nat)
    ensures
        chis(ones(n)).len() == pow2(n),
        forall|i: int|
            0 <= i < pow2(n) ==> #[trigger] chis(ones(n))[i] == if i == pow2(n) - 1 {
                1int
            } else {
                0
            },
    decreases n,
{
    lemma_chis_len(ones(n));
    if n == 0 {
        lemma2_to64();
    } else {
        lemma_halves(n);
        lemma_chis_ones((n - 1) as nat);
        assert(ones(n).drop_last() =~= ones((n - 1) as nat));
        let s = chis(ones((n - 1) as nat));
        assert forall|i: int| 0 <= i < pow2(n) implies #[trigger] chis(ones(n))[i] == if i == pow2(
            n,
        ) - 1 {
            1int
        } else {
            0
        } by {
            assert(0 <= i / 2 < s.len());
            let v = s[i / 2];
            assert(v - v * 1 == 0);
        }
    }
}

/// The value at a point that ends in `t` lies on the line through the values
/// at the points that end in zero and in one.
pub proof fn lemma_eval_push(e: Seq<int>, r: Seq<int>, t: int)
    requires
        e.len() == pow2(r.len() + 1),
    ensures
        eval(e, r.push(0)) == eval(evens(e), r),
        eval(e, r.push(1)) == eval(odds(e), r),
        eval(e, r.push(t)) == eval(e, r.push(0)) + t * (eval(e, r.push(1)) - eval(e, r.push(0))),
{
    lemma_halves(r.len() + 1);
    assert(r.push(0).drop_last() =~= r && r.push(1).drop_last() =~= r && r.push(t).drop_last()
        =~= r);
    lemma_eval_last(e, r.push(0));
    lemma_eval_last(e, r.push(1));
    lemma_eval_last(e, r.push(t));
    assert(bind_last(e, 0) =~= evens(e));
    assert(bind_last(e, 1) =~= odds(e));
    lemma_eval_line(evens(e), odds(e), t, r);
}

/// The value at a point that begins with `t` lies on the line through the
/// values at the points that begin with zero and with one.
pub proof fn lemma_eval_prepend(e: Seq<int>, r: Seq<int>, t: int)
    requires
        e.len() == pow2(r.len() + 1),
    ensures
        eval(e, seq![0int] + r) == eval(low_half(e), r),
        eval(e, seq![1int] + r) == eval(high_half(e), r),
        eval(e, seq![t] + r) == eval(e, seq![0int] + r) + t * (eval(e, seq![1int] + r) - eval(
            e,
            seq![0int] + r,
        )),
{
    lemma_halves(r.len() + 1);
    assert((seq![0int] + r).drop_first() =~= r && (seq![1int] + r).drop_first() =~= r && (seq![t]
        + r).drop_first() =~= r);
    assert(bind_first(e, 0) =~= low_half(e));
    assert(bind_first(e, 1) =~= high_half(e));
    lemma_eval_line(low_half(e), high_half(e), t, r);
}

/// A polynomial without variables is its value. One with variables is, in the first of them,
/// the line through the polynomials that the first half and the second half of the values
/// give.
pub proof fn lemma_eval_recursion(e: Seq<int>, r: Seq<int>, t: int, v: int)
    requires
        e.len() == pow2(r.len() + 1),
    ensures
        eval(seq![v], Seq::empty()) == v,
        eval(e, seq![t] + r) == eval(e.take(pow2(r.len()) as int), r) + t * (eval(
            e.skip(pow2(r.len()) as int),
            r,
        ) - eval(e.take(pow2(r.len()) as int), r)),
{
    lemma_halves(r.len() + 1);
    lemma_eval_prepend(e, r, t);
    assert(low_half(e) =~= e.take(pow2(r.len()) as int));
    assert(high_half(e) =~= e.skip(pow2(r.len()) as int));
}

/// `eq` of two points with one more coordinate each.
pub proof fn lemma_eq_at(x: Seq<int>, y: Seq<int>, a: int, b: int)
    ensures
        eq_at(Seq::empty(), Seq::empty()) == 1,
        eq_at(x.push(a), y.push(b)) == eq_at(x, y) * (a * b + (1 - a) * (1 - b)),
{
    assert(x.push(a).drop_last() =~= x);
    assert(y.push(b).drop_last() =~= y);
}

} // verus!
