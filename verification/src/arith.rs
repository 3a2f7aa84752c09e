//! Integer arithmetic modulo a positive number, and finite sums and products.
//!
//! Field elements are modelled by integers. Polynomial identities are proved
//! over the integers and carried to the field by the congruence lemmas here.
use vstd::arithmetic::div_mod::*;
use vstd::prelude::*;

verus! {

/// `a` and `b` stand for the same residue modulo `m`.
pub open spec fn cong(a: int, b: int, m: int) -> bool {
    a % m == b % m
}

/// `a` and `b` agree entry by entry modulo `m`.
pub open spec fn cong_seq(a: Seq<int>, b: Seq<int>, m: int) -> bool {
    &&& a.len() == b.len()
    &&& forall|i: int| 0 <= i < a.len() ==> cong(#[trigger] a[i], b[i], m)
}

/// Every entry of `s` reduced modulo `m`.
pub open spec fn reduced(s: Seq<int>, m: int) -> Seq<int> {
    Seq::new(s.len(), |i: int| s[i] % m)
}

/// `f(0) + ... + f(n - 1)`.
pub open spec fn sum(n: nat, f: spec_fn(int) -> int) -> int
    decreases n,
{
    if n == 0 {
        0
    } else {
        sum((n - 1) as nat, f) + f(n - 1)
    }
}

/// The product of the entries of `s`.
pub open spec fn product(s: Seq<int>) -> int
    decreases s.len(),
{
    if s.len() == 0 {
        1
    } else {
        product(s.drop_last()) * s.last()
    }
}

/// The inner product of `a` and `b`.
pub open spec fn dot(a: Seq<int>, b: Seq<int>) -> int {
    sum(a.len(), |i: int| a[i] * b[i])
}

/// A number and its residue stand for the same residue.
pub proof fn lemma_reduce(a: int, m: int)
    requires
        m > 0,
    ensures
        cong(a % m, a, m),
        0 <= a % m < m,
{
    lemma_mod_twice(a, m);
    lemma_mod_bound(a, m);
}

/// A number below the modulus is its own residue.
pub proof fn lemma_reduced_fixed(a: int, m: int)
    requires
        0 <= a < m,
    ensures
        a % m == a,
{
    lemma_small_mod(a as nat, m as nat);
}

/// Sums depend on the residues alone.
pub proof fn lemma_cong_add(a: int, b: int, c: int, d: int, m: int)
    requires
        m > 0,
        cong(a, b, m),
        cong(c, d, m),
    ensures
        cong(a + c, b + d, m),
{
    lemma_add_mod_noop(a, c, m);
    lemma_add_mod_noop(b, d, m);
}

/// Differences depend on the residues alone.
pub proof fn lemma_cong_sub(a: int, b: int, c: int, d: int, m: int)
    requires
        m > 0,
        cong(a, b, m),
        cong(c, d, m),
    ensures
        cong(a - c, b - d, m),
{
    lemma_sub_mod_noop(a, c, m);
    lemma_sub_mod_noop(b, d, m);
}

/// Products depend on the residues alone.
pub proof fn lemma_cong_mul(a: int, b: int, c: int, d: int, m: int)
    requires
        m > 0,
        cong(a, b, m),
        cong(c, d, m),
    ensures
        cong(a * c, b * d, m),
{
    lemma_mul_mod_noop(a, c, m);
    lemma_mul_mod_noop(b, d, m);
}

/// `x + t * (y - x)` depends on the residues of `x`, `y` and `t` alone.
pub proof fn lemma_cong_line(x: int, x2: int, y: int, y2: int, t: int, t2: int, m: int)
    requires
        m > 0,
        cong(x, x2, m),
        cong(y, y2, m),
        cong(t, t2, m),
    ensures
        cong(x + t * (y - x), x2 + t2 * (y2 - x2), m),
{
    lemma_cong_sub(y, y2, x, x2, m);
    lemma_cong_mul(t, t2, y - x, y2 - x2, m);
    lemma_cong_add(x, x2, t * (y - x), t2 * (y2 - x2), m);
}

/// Reducing the entries keeps their residues.
pub proof fn lemma_reduced_cong(s: Seq<int>, m: int)
    requires
        m > 0,
    ensures
        cong_seq(reduced(s, m), s, m),
{
    assert forall|i: int| 0 <= i < s.len() implies cong(#[trigger] reduced(s, m)[i], s[i], m) by {
        lemma_reduce(s[i], m);
    }
}

/// Sequences that agree modulo `m` are reduced to the same sequence.
pub proof fn lemma_cong_reduced_eq(a: Seq<int>, b: Seq<int>, m: int)
    requires
        cong_seq(a, b, m),
    ensures
        reduced(a, m) == reduced(b, m),
{
    assert forall|i: int| 0 <= i < a.len() implies reduced(a, m)[i] == reduced(b, m)[i] by {
        assert(cong(a[i], b[i], m));
    }
    assert(reduced(a, m) =~= reduced(b, m));
}

/// A sum depends on its terms alone.
pub proof fn lemma_sum_ext(n: nat, f: spec_fn(int) -> int, g: spec_fn(int) -> int)
    requires
        forall|i: int| 0 <= i < n ==> #[trigger] f(i) == g(i),
    ensures
        sum(n, f) == sum(n, g),
    decreases n,
{
    if n > 0 {
        lemma_sum_ext((n - 1) as nat, f, g);
        assert(f(n - 1) == g(n - 1));
    }
}

/// The residue of a sum depends on the residues of its terms alone.
pub proof fn lemma_sum_cong(n: nat, f: spec_fn(int) -> int, g: spec_fn(int) -> int, m: int)
    requires
        m > 0,
        forall|i: int| 0 <= i < n ==> cong(#[trigger] f(i), g(i), m),
    ensures
        cong(sum(n, f), sum(n, g), m),
    decreases n,
{
    if n > 0 {
        lemma_sum_cong((n - 1) as nat, f, g, m);
        assert(cong(f(n - 1), g(n - 1), m));
        lemma_cong_add(sum((n - 1) as nat, f), sum((n - 1) as nat, g), f(n - 1), g(n - 1), m);
    }
}

/// A sum of sums of two terms.
pub proof fn lemma_sum_add(n: nat, f: spec_fn(int) -> int, g: spec_fn(int) -> int)
    ensures
        sum(n, |i: int| f(i) + g(i)) == sum(n, f) + sum(n, g),
    decreases n,
{
    if n > 0 {
        lemma_sum_add((n - 1) as nat, f, g);
    }
}

/// A sum of multiples of a number.
pub proof fn lemma_sum_scale(n: nat, c: int, f: spec_fn(int) -> int)
    ensures
        sum(n, |i: int| c * f(i)) == c * sum(n, f),
    decreases n,
{
    if n > 0 {
        lemma_sum_scale((n - 1) as nat, c, f);
        let s = sum((n - 1) as nat, f);
        let l = f(n - 1);
        assert(c * s + c * l == c * (s + l)) by (nonlinear_arith);
    }
    else {
        assert(c * 0 == 0);
    }
}

/// A sum over `k + n` terms is the sum of the first `k` and of the last `n`.
pub proof fn lemma_sum_split(k: nat, n: nat, f: spec_fn(int) -> int)
    ensures
        sum(k + n, f) == sum(k, f) + sum(n, |i: int| f(k + i)),
    decreases n,
{
    if n > 0 {
        lemma_sum_split(k, (n - 1) as nat, f);
        assert((k + n - 1) as nat == k + (n - 1) as nat);
    }
}

/// A sum over an even number of terms, taken two by two.
pub proof fn lemma_sum_pairs(n: nat, f: spec_fn(int) -> int)
    ensures
        sum(2 * n, f) == sum(n, |i: int| f(2 * i) + f(2 * i + 1)),
    decreases n,
{
    if n > 0 {
        lemma_sum_pairs((n - 1) as nat, f);
        assert(sum(2 * n, f) == sum((2 * n - 1) as nat, f) + f(2 * n - 1));
        assert(sum((2 * n - 1) as nat, f) == sum((2 * n - 2) as nat, f) + f(2 * n - 2));
        assert((2 * n - 2) as nat == 2 * (n - 1) as nat);
    }
}

/// A sum of multiples of `m`, but for its last term.
pub proof fn lemma_sum_only_last(n: nat, f: spec_fn(int) -> int, m: int)
    requires
        m > 0,
        n > 0,
        forall|i: int| 0 <= i < n - 1 ==> cong(#[trigger] f(i), 0, m),
    ensures
        cong(sum(n, f), f(n - 1), m),
{
    let zero = |i: int| 0int;
    lemma_sum_cong((n - 1) as nat, f, zero, m);
    lemma_sum_zero((n - 1) as nat);
    lemma_cong_add(sum((n - 1) as nat, f), 0, f(n - 1), f(n - 1), m);
}

/// The order of two sums can be exchanged.
pub proof fn lemma_sum_swap(n: nat, k: nat, f: spec_fn(int, int) -> int)
    ensures
        sum(n, |x: int| sum(k, |i: int| f(x, i))) == sum(k, |i: int| sum(n, |x: int| f(x, i))),
    decreases n,
{
    let rows = |x: int| sum(k, |i: int| f(x, i));
    let columns = |i: int| sum(n, |x: int| f(x, i));
    if n == 0 {
        let none = |i: int| 0int;
        assert forall|i: int| 0 <= i < k implies #[trigger] columns(i) == none(i) by {}
        lemma_sum_ext(k, columns, none);
        lemma_sum_zero(k);
    } else {
        let h = (n - 1) as nat;
        lemma_sum_swap(h, k, f);
        let before = |i: int| sum(h, |x: int| f(x, i));
        let last = |i: int| f(n - 1, i);
        lemma_sum_add(k, before, last);
        let both = |i: int| before(i) + last(i);
        assert forall|i: int| 0 <= i < k implies #[trigger] columns(i) == both(i) by {
            let column = |x: int| f(x, i);
            assert(sum(n, column) == sum(h, column) + column(n - 1));
        }
        lemma_sum_ext(k, columns, both);
        assert(rows(n - 1) == sum(k, last));
        assert(sum(n, rows) == sum(h, rows) + rows(n - 1));
    }
}

/// A sum of zeros.
pub proof fn lemma_sum_zero(n: nat)
    ensures
        sum(n, |i: int| 0int) == 0,
    decreases n,
{
    if n > 0 {
        lemma_sum_zero((n - 1) as nat);
    }
}

/// The product with one more factor.
pub proof fn lemma_product_push(s: Seq<int>, x: int)
    ensures
        product(Seq::empty()) == 1,
        product(s.push(x)) == product(s) * x,
{
    assert(s.push(x).drop_last() =~= s);
}

} // verus!
