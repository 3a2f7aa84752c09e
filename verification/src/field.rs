//! Prime fields.
use vstd::prelude::*;

verus! {

/// An element of a prime field in which six has an inverse.
///
/// An element is modelled by its canonical representative, an integer from zero
/// up to the modulus.
pub trait JoltField: Sized + Copy {
    /// The canonical representative.
    spec fn view(&self) -> int;

    /// The number of elements of the field.
    spec fn modulus() -> int;

    /// The bytes that stand for the element with representative `v`.
    spec fn encoding(v: int) -> Seq<u8>;

    /// The representative of the element that `bytes` are read as.
    spec fn decoding(bytes: Seq<u8>) -> int;

    proof fn lemma_modulus()
        ensures
            Self::modulus() > 1,
    ;

    proof fn lemma_canonical(x: Self)
        ensures
            0 <= x@ < Self::modulus(),
    ;

    /// All elements are written with the same number of bytes, and the bytes are read as the
    /// element that they were written for.
    proof fn lemma_encoding(v: int, w: int)
        requires
            0 <= v < Self::modulus(),
            0 <= w < Self::modulus(),
        ensures
            Self::encoding(v).len() == Self::encoding(w).len(),
            Self::decoding(Self::encoding(v)) == v,
            Self::decoding(Self::encoding(w)) == w,
    ;

    fn zero() -> (r: Self)
        ensures
            r@ == 0,
    ;

    fn one() -> (r: Self)
        ensures
            r@ == 1,
    ;

    /// The inverse of two.
    fn half() -> (r: Self)
        ensures
            (2 * r@) % Self::modulus() == 1,
    ;

    /// The inverse of six.
    fn sixth() -> (r: Self)
        ensures
            (6 * r@) % Self::modulus() == 1,
    ;

    fn add(&self, other: &Self) -> (r: Self)
        ensures
            r@ == (self@ + other@) % Self::modulus(),
    ;

    fn sub(&self, other: &Self) -> (r: Self)
        ensures
            r@ == (self@ - other@) % Self::modulus(),
    ;

    fn mul(&self, other: &Self) -> (r: Self)
        ensures
            r@ == (self@ * other@) % Self::modulus(),
    ;

    /// Whether the two elements are the same.
    fn equals(&self, other: &Self) -> (r: bool)
        ensures
            r == (self@ == other@),
    ;

    fn to_bytes(&self) -> (r: Vec<u8>)
        ensures
            r@ == Self::encoding(self@),
    ;

    fn from_bytes(bytes: &[u8]) -> (r: Self)
        ensures
            r@ == Self::decoding(bytes@),
    ;
}

/// The representatives of the elements of `s`.
pub open spec fn values<F: JoltField>(s: Seq<F>) -> Seq<int> {
    Seq::new(s.len(), |i: int| s[i]@)
}

/// The representatives of the elements of several sequences.
pub open spec fn rows<F: JoltField>(s: Seq<Vec<F>>) -> Seq<Seq<int>> {
    Seq::new(s.len(), |i: int| values(s[i]@))
}

/// All entries of `s` are representatives.
pub open spec fn canonical<F: JoltField>(s: Seq<int>) -> bool {
    forall|i: int| 0 <= i < s.len() ==> 0 <= #[trigger] s[i] < F::modulus()
}

/// The representatives of elements are representatives.
pub proof fn lemma_values_canonical<F: JoltField>(s: Seq<F>)
    ensures
        canonical::<F>(values(s)),
        values(s).len() == s.len(),
{
    assert forall|i: int| 0 <= i < s.len() implies 0 <= #[trigger] values(s)[i]
        < F::modulus() by {
        F::lemma_canonical(s[i]);
    }
}

/// The answer of a verifier by the representatives of its field elements.
pub open spec fn answer<F: JoltField, E>(r: Result<(Vec<F>, Vec<F>), E>) -> Result<
    (Seq<int>, Seq<int>),
    E,
> {
    match r {
        Ok((claims, point)) => Ok((values(claims@), values(point@))),
        Err(e) => Err(e),
    }
}

/// A copy of the elements of `s`.
pub fn copy_of<F: JoltField>(s: &[F]) -> (r: Vec<F>)
    ensures
        r@ == s@,
{
    let mut r: Vec<F> = Vec::new();
    let mut i: usize = 0;
    while i < s.len()
        invariant
            i <= s@.len(),
            r@ == s@.take(i as int),
        decreases s@.len() - i,
    {
        r.push(s[i]);
        assert(s@.take(i + 1) =~= s@.take(i as int).push(s@[i as int]));
        i = i + 1;
    }
    assert(s@.take(s@.len() as int) =~= s@);
    r
}

} // verus!
