//! The scalar field of the curve BN254.
use crate::arith;
use crate::field::JoltField;
use ark_ff::{BigInt, PrimeField};
use vstd::arithmetic::power2::*;
use vstd::prelude::*;

verus! {

/// The order of the scalar field of BN254.
pub open spec fn bn254_order() -> int {
    0x30644e72e131a029b85045b68181585d2833e84879b9709143e1f593f0000001int
}

/// The number of values of a word.
#[verifier::inline]
pub open spec fn word() -> int {
    0x1_0000_0000_0000_0000int
}

/// The number with the four words `l`, the least significant one first.
pub open spec fn limbs_value(l: [u64; 4]) -> int {
    l[0] + l[1] * 0x1_0000_0000_0000_0000int + l[2]
        * 0x1_0000_0000_0000_0000_0000_0000_0000_0000int + l[3]
        * 0x1_0000_0000_0000_0000_0000_0000_0000_0000_0000_0000_0000_0000int
}

/// The number with the digits `bytes` to the base 256, the least significant one first.
pub open spec fn le_value(bytes: Seq<u8>) -> int
    decreases bytes.len(),
{
    if bytes.len() == 0 {
        0
    } else {
        bytes[0] + 256 * le_value(bytes.drop_first())
    }
}

/// The `n` least significant digits of `v` to the base 256, the least significant one first.
pub open spec fn le_digits(v: int, n: nat) -> Seq<u8>
    decreases n,
{
    if n == 0 {
        Seq::empty()
    } else {
        seq![(v % 256) as u8] + le_digits(v / 256, (n - 1) as nat)
    }
}

/// An element of the scalar field of BN254, by the four words of its
/// representative.
#[derive(Clone, Copy, Debug, PartialEq, Eq)]
pub struct Fr {
    limbs: [u64; 4],
}

impl Fr {
    #[verifier::type_invariant]
    spec fn in_range(self) -> bool {
        limbs_value(self.limbs) < bn254_order()
    }

    /// The element with the representative that `limbs` give, the least
    /// significant word first, or `None` if that number is not below the order.
    pub fn from_limbs(limbs: [u64; 4]) -> (r: Option<Fr>)
        ensures
            r is Some <==> limbs_value(limbs) < bn254_order(),
            r matches Some(x) ==> x@ == limbs_value(limbs),
    {
        if below_order(limbs) {
            proof {
                arith::lemma_reduced_fixed(limbs_value(limbs), bn254_order());
            }
            Some(Fr { limbs })
        } else {
            None
        }
    }

    /// The four words of the representative, the least significant one first.
    pub fn to_limbs(&self) -> (r: [u64; 4])
        ensures
            limbs_value(r) == self@,
    {
        proof {
            use_type_invariant(self);
            arith::lemma_reduced_fixed(limbs_value(self.limbs), bn254_order());
        }
        self.limbs
    }
}

/// Whether the number with the words `l` is below the order of the field.
fn below_order(l: [u64; 4]) -> (r: bool)
    ensures
        r == (limbs_value(l) < bn254_order()),
{
    let p0: u64 = 0x43e1f593f0000001;
    let p1: u64 = 0x2833e84879b97091;
    let p2: u64 = 0xb85045b68181585d;
    let p3: u64 = 0x30644e72e131a029;
    l[3] < p3 || (l[3] == p3 && (l[2] < p2 || (l[2] == p2 && (l[1] < p1 || (l[1] == p1 && l[0]
        < p0)))))
}

/// The sum of two numbers below the order, reduced.
///
/// Calls the addition of `ark_bn254::Fr`. Believed: `from_bigint` takes a number
/// below the order to the element it represents, `+` adds in the field, and
/// `into_bigint` gives back the representative below the order.
#[verifier::external_body]
fn ark_add(a: [u64; 4], b: [u64; 4]) -> (r: [u64; 4])
    requires
        limbs_value(a) < bn254_order(),
        limbs_value(b) < bn254_order(),
    ensures
        limbs_value(r) == (limbs_value(a) + limbs_value(b)) % bn254_order(),
{
    let x = ark_bn254::Fr::from_bigint(BigInt::new(a)).unwrap();
    let y = ark_bn254::Fr::from_bigint(BigInt::new(b)).unwrap();
    (x + y).into_bigint().0
}

/// The difference of two numbers below the order, reduced.
///
/// Calls the subtraction of `ark_bn254::Fr`. Believed: `from_bigint` takes a
/// number below the order to the element it represents, `-` subtracts in the
/// field, and `into_bigint` gives back the representative below the order.
#[verifier::external_body]
fn ark_sub(a: [u64; 4], b: [u64; 4]) -> (r: [u64; 4])
    requires
        limbs_value(a) < bn254_order(),
        limbs_value(b) < bn254_order(),
    ensures
        limbs_value(r) == (limbs_value(a) - limbs_value(b)) % bn254_order(),
{
    let x = ark_bn254::Fr::from_bigint(BigInt::new(a)).unwrap();
    let y = ark_bn254::Fr::from_bigint(BigInt::new(b)).unwrap();
    (x - y).into_bigint().0
}

/// The product of two numbers below the order, reduced.
///
/// Calls the multiplication of `ark_bn254::Fr`. Believed: `from_bigint` takes a
/// number below the order to the element it represents, `*` multiplies in the
/// field, and `into_bigint` gives back the representative below the order.
#[verifier::external_body]
fn ark_mul(a: [u64; 4], b: [u64; 4]) -> (r: [u64; 4])
    requires
        limbs_value(a) < bn254_order(),
        limbs_value(b) < bn254_order(),
    ensures
        limbs_value(r) == (limbs_value(a) * limbs_value(b)) % bn254_order(),
{
    let x = ark_bn254::Fr::from_bigint(BigInt::new(a)).unwrap();
    let y = ark_bn254::Fr::from_bigint(BigInt::new(b)).unwrap();
    (x * y).into_bigint().0
}

/// The number that `bytes` write in little-endian order, reduced.
///
/// Calls `from_le_bytes_mod_order` of `ark_bn254::Fr`. Believed: it reads the
/// bytes as a number, the least significant byte first, and reduces it modulo
/// the order; `into_bigint` gives the representative below the order.
#[verifier::external_body]
fn ark_from_le_bytes(bytes: &[u8]) -> (r: [u64; 4])
    ensures
        limbs_value(r) == le_value(bytes@) % bn254_order(),
{
    ark_bn254::Fr::from_le_bytes_mod_order(bytes).into_bigint().0
}

/// Appends the eight bytes of `x`, the least significant one first.
fn push_word(bytes: &mut Vec<u8>, x: u64)
    ensures
        final(bytes)@ == old(bytes)@ + le_digits(x as int, 8),
{
    let ghost start = bytes@;
    let mut rest: u64 = x;
    let mut i: usize = 0;
    while i < 8
        invariant
            i <= 8,
            start + le_digits(x as int, 8) == bytes@ + le_digits(rest as int, (8 - i) as nat),
        decreases 8 - i,
    {
        let digit: u8 = (rest % 256) as u8;
        let ghost before = bytes@;
        bytes.push(digit);
        proof {
            let n = (8 - i) as nat;
            assert(le_digits(rest as int, n) == seq![digit] + le_digits(rest as int / 256, (n
                - 1) as nat));
            assert(before + (seq![digit] + le_digits(rest as int / 256, (n - 1) as nat))
                =~= before.push(digit) + le_digits(rest as int / 256, (n - 1) as nat));
        }
        rest = rest / 256;
        i = i + 1;
    }
    assert(bytes@ + le_digits(rest as int, 0) =~= bytes@);
}

/// The `i`-th word of the number `v`.
pub open spec fn word_of(v: int, i: nat) -> int
    decreases i,
{
    if i == 0 {
        v % word()
    } else {
        word_of(v / word(), (i - 1) as nat)
    }
}

proof fn lemma_words(l: [u64; 4])
    ensures
        word_of(limbs_value(l), 0) == l[0],
        word_of(limbs_value(l), 1) == l[1],
        word_of(limbs_value(l), 2) == l[2],
        word_of(limbs_value(l), 3) == l[3],
{
    let v = limbs_value(l);
    let (a, b, c, d) = (l[0] as int, l[1] as int, l[2] as int, l[3] as int);
    reveal_with_fuel(word_of, 4);
    let v1 = b + c * word() + d * 0x1_0000_0000_0000_0000_0000_0000_0000_0000int;
    let v2 = c + d * word();
    assert(v % word() == a && v / word() == v1);
    assert(v1 % word() == b && v1 / word() == v2);
    assert(v2 % word() == c && v2 / word() == d);
}

proof fn lemma_digit_base(n: nat)
    ensures
        pow2(8 * (n + 1)) == 256 * pow2(8 * n),
        pow2(8 * n) > 0,
{
    lemma2_to64();
    lemma_pow2_adds(8, 8 * n);
    lemma_pow2_pos(8 * n);
}

/// The digits of a number give it back.
proof fn lemma_le_digits(v: int, n: nat)
    requires
        0 <= v < pow2(8 * n),
    ensures
        le_digits(v, n).len() == n,
        le_value(le_digits(v, n)) == v,
    decreases n,
{
    lemma2_to64();
    if n > 0 {
        let k = (n - 1) as nat;
        lemma_digit_base(k);
        assert(8 * n == 8 * (k + 1));
        lemma_le_digits(v / 256, k);
        assert(le_digits(v, n).drop_first() =~= le_digits(v / 256, k));
    }
}

/// The value of digits that are put one after the other.
proof fn lemma_le_concat(a: Seq<u8>, b: Seq<u8>)
    ensures
        le_value(a + b) == le_value(a) + pow2(8 * a.len()) * le_value(b),
    decreases a.len(),
{
    lemma2_to64();
    if a.len() == 0 {
        assert(a + b =~= b);
        assert(1 * le_value(b) == le_value(b));
    } else {
        let t = a.drop_first();
        lemma_le_concat(t, b);
        lemma_digit_base(t.len());
        assert(8 * a.len() == 8 * (t.len() + 1));
        assert((a + b).drop_first() =~= t + b);
        let (p, y) = (pow2(8 * t.len()) as int, le_value(b));
        assert((256 * p) * y == 256 * (p * y)) by (nonlinear_arith);
    }
}

/// The encoding of a number below the order is read as that number.
proof fn lemma_encoding_value(v: int)
    requires
        0 <= v < bn254_order(),
    ensures
        Fr::encoding(v).len() == 32,
        le_value(Fr::encoding(v)) == v,
{
    reveal_with_fuel(word_of, 4);
    lemma2_to64();
    lemma2_to64_rest();
    assert(pow2(64) == word());
    let (w0, w1, w2, w3) = (word_of(v, 0), word_of(v, 1), word_of(v, 2), word_of(v, 3));
    lemma_le_digits(w0, 8);
    lemma_le_digits(w1, 8);
    lemma_le_digits(w2, 8);
    lemma_le_digits(w3, 8);
    let (d0, d1, d2, d3) = (
        le_digits(w0, 8),
        le_digits(w1, 8),
        le_digits(w2, 8),
        le_digits(w3, 8),
    );
    assert(Fr::encoding(v) =~= d0 + (d1 + (d2 + d3)));
    lemma_le_concat(d0, d1 + (d2 + d3));
    lemma_le_concat(d1, d2 + d3);
    lemma_le_concat(d2, d3);
}

impl JoltField for Fr {
    open spec fn view(&self) -> int {
        self.representative()
    }

    open spec fn modulus() -> int {
        bn254_order()
    }

    /// Four words of eight bytes, the least significant word and byte first.
    open spec fn encoding(v: int) -> Seq<u8> {
        le_digits(word_of(v, 0), 8) + le_digits(word_of(v, 1), 8) + le_digits(word_of(v, 2), 8)
            + le_digits(word_of(v, 3), 8)
    }

    /// The bytes read as a number, the least significant one first, and reduced.
    open spec fn decoding(bytes: Seq<u8>) -> int {
        le_value(bytes) % bn254_order()
    }

    proof fn lemma_modulus() {
    }

    proof fn lemma_canonical(x: Self) {
        arith::lemma_reduce(limbs_value(x.limbs), bn254_order());
    }

    proof fn lemma_encoding(v: int, w: int) {
        lemma_encoding_value(v);
        lemma_encoding_value(w);
        arith::lemma_reduced_fixed(v, bn254_order());
        arith::lemma_reduced_fixed(w, bn254_order());
    }

    fn zero() -> (r: Self) {
        Fr { limbs: [0, 0, 0, 0] }
    }

    fn one() -> (r: Self) {
        Fr { limbs: [1, 0, 0, 0] }
    }

    fn half() -> (r: Self) {
        Fr {
            limbs: [0xa1f0fac9f8000001, 0x9419f4243cdcb848, 0xdc2822db40c0ac2e, 0x183227397098d014],
        }
    }

    fn sixth() -> (r: Self) {
        Fr {
            limbs: [0xb891a1fb48000001, 0x4c2b4191bac53323, 0xc442e4c2c1411ef8, 0x285396b510feb022],
        }
    }

    fn add(&self, other: &Self) -> (r: Self) {
        let (a, b) = (self.to_limbs(), other.to_limbs());
        proof {
            Self::lemma_canonical(*self);
            Self::lemma_canonical(*other);
            arith::lemma_reduce(self@ + other@, bn254_order());
        }
        Fr { limbs: ark_add(a, b) }
    }

    fn sub(&self, other: &Self) -> (r: Self) {
        let (a, b) = (self.to_limbs(), other.to_limbs());
        proof {
            Self::lemma_canonical(*self);
            Self::lemma_canonical(*other);
            arith::lemma_reduce(self@ - other@, bn254_order());
        }
        Fr { limbs: ark_sub(a, b) }
    }

    fn mul(&self, other: &Self) -> (r: Self) {
        let (a, b) = (self.to_limbs(), other.to_limbs());
        proof {
            Self::lemma_canonical(*self);
            Self::lemma_canonical(*other);
            arith::lemma_reduce(self@ * other@, bn254_order());
        }
        Fr { limbs: ark_mul(a, b) }
    }

    fn equals(&self, other: &Self) -> (r: bool) {
        let (a, b) = (self.to_limbs(), other.to_limbs());
        proof {
            lemma_words(a);
            lemma_words(b);
        }
        a[0] == b[0] && a[1] == b[1] && a[2] == b[2] && a[3] == b[3]
    }

    fn to_bytes(&self) -> (r: Vec<u8>) {
        let l = self.to_limbs();
        proof {
            lemma_words(l);
        }
        let mut bytes: Vec<u8> = Vec::new();
        push_word(&mut bytes, l[0]);
        push_word(&mut bytes, l[1]);
        push_word(&mut bytes, l[2]);
        push_word(&mut bytes, l[3]);
        assert(bytes@ =~= Self::encoding(self@));
        bytes
    }

    fn from_bytes(bytes: &[u8]) -> (r: Self) {
        let limbs = ark_from_le_bytes(bytes);
        proof {
            arith::lemma_reduce(le_value(bytes@), bn254_order());
        }
        Fr { limbs }
    }
}

impl Fr {
    /// The canonical representative.
    pub closed spec fn representative(&self) -> int {
        limbs_value(self.limbs) % bn254_order()
    }
}

} // verus!
