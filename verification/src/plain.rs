//! A commitment scheme whose commitments are the polynomials themselves.
//!
//! It hides nothing, and an opening costs as much as an evaluation. It shows what is asked
//! of a scheme, and serves where no other scheme is at hand.
use crate::commitment;
use crate::commitment::{BatchType, CommitmentScheme};
use crate::errors::ProofVerifyError;
use crate::field;
use crate::field::JoltField;
use crate::math;
use crate::mle;
use crate::poly;
use crate::poly::DensePolynomial;
use crate::quark;
use crate::transcript;
use crate::transcript::{AppendToTranscript, ProofTranscript};
use std::marker::PhantomData;
use vstd::arithmetic::power2::*;
use vstd::prelude::*;

verus! {

/// The scheme.
pub struct PlainScheme<F: JoltField> {
    field: PhantomData<F>,
}

/// A commitment: the values of the polynomial on the hypercube.
pub struct PlainCommitment<F: JoltField> {
    pub evals: Vec<F>,
}

impl<F: JoltField> AppendToTranscript for PlainCommitment<F> {
    open spec fn absorbed(&self, state: Seq<u8>, label: Seq<char>) -> Seq<u8> {
        transcript::absorb_scalars::<F>(state, label, field::values(self.evals@))
    }

    fn append_to_transcript(&self, label: &str, transcript: &mut ProofTranscript) {
        transcript.append_scalars(label, self.evals.as_slice());
    }
}

/// The values of the polynomials behind the commitments.
pub open spec fn committed<F: JoltField>(commitments: Seq<PlainCommitment<F>>) -> Seq<Seq<int>> {
    Seq::new(commitments.len(), |i: int| field::values(commitments[i].evals@))
}

impl<F: JoltField> CommitmentScheme for PlainScheme<F> {
    type Field = F;

    /// The greatest number of variables.
    type Setup = usize;

    type Commitment = PlainCommitment<F>;

    type BatchedProof = ();

    open spec fn supports(setup: usize, num_vars: nat) -> bool {
        num_vars <= setup
    }

    open spec fn commits(
        polys: Seq<Seq<int>>,
        setup: usize,
        batch_type: BatchType,
        commitments: Seq<PlainCommitment<F>>,
    ) -> bool {
        committed(commitments) == polys
    }

    open spec fn opens(
        setup: usize,
        polys: Seq<Seq<int>>,
        point: Seq<int>,
        openings: Seq<int>,
        batch_type: BatchType,
        state: Seq<u8>,
        proof: (),
    ) -> bool {
        true
    }

    open spec fn after_prove(
        setup: usize,
        polys: Seq<Seq<int>>,
        point: Seq<int>,
        openings: Seq<int>,
        batch_type: BatchType,
        state: Seq<u8>,
        proof: (),
    ) -> Seq<u8> {
        transcript::absorb_scalars::<F>(state, "openings"@, openings)
    }

    open spec fn accepts(
        proof: (),
        setup: usize,
        point: Seq<int>,
        openings: Seq<int>,
        commitments: Seq<PlainCommitment<F>>,
        state: Seq<u8>,
    ) -> bool {
        &&& poly::tables_have_vars(committed(commitments), point.len())
        &&& openings == poly::evals_at(committed(commitments), point, F::modulus())
    }

    open spec fn after_verify(
        proof: (),
        setup: usize,
        point: Seq<int>,
        openings: Seq<int>,
        commitments: Seq<PlainCommitment<F>>,
        state: Seq<u8>,
    ) -> Seq<u8> {
        transcript::absorb_scalars::<F>(state, "openings"@, openings)
    }

    fn batch_commit_polys(
        polys: &[DensePolynomial<F>],
        setup: &usize,
        batch_type: BatchType,
    ) -> (r: Vec<PlainCommitment<F>>) {
        let mut r: Vec<PlainCommitment<F>> = Vec::new();
        let mut i: usize = 0;
        while i < polys.len()
            invariant
                i <= polys@.len(),
                r@.len() == i,
                forall|k: int|
                    0 <= k < i ==> field::values((#[trigger] r@[k]).evals@) == polys@[k]@,
            decreases polys@.len() - i,
        {
            r.push(PlainCommitment { evals: polys[i].evaluations() });
            i = i + 1;
        }
        assert(committed(r@) =~= poly::tables(polys@));
        r
    }

    fn batch_prove(
        setup: &usize,
        polys: &[DensePolynomial<F>],
        point: &[F],
        openings: &[F],
        batch_type: BatchType,
        transcript: &mut ProofTranscript,
    ) -> (r: ()) {
        transcript.append_scalars("openings", openings);
    }

    fn batch_verify(
        batch_proof: &(),
        setup: &usize,
        point: &[F],
        openings: &[F],
        commitments: &[PlainCommitment<F>],
        transcript: &mut ProofTranscript,
    ) -> (r: Result<(), ProofVerifyError>) {
        transcript.append_scalars("openings", openings);
        let ghost t = committed(commitments@);
        let ghost n = point@.len();
        let mut polys: Vec<DensePolynomial<F>> = Vec::new();
        let mut i: usize = 0;
        assert(field::values(point@).len() == point@.len());
        while i < commitments.len()
            invariant
                i <= commitments@.len(),
                t == committed(commitments@),
                n == point@.len(),
                n == field::values(point@).len(),
                polys@.len() == i,
                poly::all_have_vars(polys@, n),
                forall|k: int| 0 <= k < i ==> (#[trigger] polys@[k])@ == t[k],
                transcript@ == <Self as CommitmentScheme>::after_verify(
                    *batch_proof,
                    *setup,
                    field::values(point@),
                    field::values(openings@),
                    commitments@,
                    old(transcript)@,
                ),
            decreases commitments@.len() - i,
        {
            if !is_power(commitments[i].evals.len(), point.len()) {
                assert(t[i as int].len() != pow2(n));
                return Err(ProofVerifyError::InvalidOpening);
            }
            proof {
                math::lemma_log2_pow2(n);
            }
            let evals = field::copy_of(commitments[i].evals.as_slice());
            polys.push(DensePolynomial::new(evals));
            i = i + 1;
        }
        assert(poly::tables(polys@) =~= t);
        proof {
            poly::lemma_tables_have_vars(polys@, n);
        }
        if openings.len() != commitments.len() {
            assert(field::values(openings@).len() != t.len());
            return Err(ProofVerifyError::InvalidOpening);
        }
        if commitments.len() == 0 {
            assert(field::values(openings@) =~= poly::evals_at(
                t,
                field::values(point@),
                F::modulus(),
            ));
            return Ok(());
        }
        let values = poly::evaluate_all(polys.as_slice(), point);
        assert(field::values(values@).len() == values@.len());
        if same_elements(&values, openings) {
            Ok(())
        } else {
            Err(ProofVerifyError::InvalidOpening)
        }
    }
}

/// Whether `len` is two to the power `n`.
fn is_power(len: usize, n: usize) -> (r: bool)
    ensures
        r == (len == pow2(n as nat)),
{
    let mut rest: usize = len;
    let mut i: usize = 0;
    proof {
        lemma2_to64();
    }
    while i < n
        invariant
            i <= n,
            (len == pow2(n as nat)) == (rest == pow2((n - i) as nat)),
        decreases n - i,
    {
        proof {
            mle::lemma_halves((n - i) as nat);
        }
        if rest % 2 != 0 {
            return false;
        }
        rest = rest / 2;
        i = i + 1;
    }
    rest == 1
}

/// Whether `a` and `b` hold the same elements.
fn same_elements<F: JoltField>(a: &Vec<F>, b: &[F]) -> (r: bool)
    ensures
        r == (field::values(a@) == field::values(b@)),
{
    let ghost x = field::values(a@);
    let ghost y = field::values(b@);
    if a.len() != b.len() {
        assert(x.len() != y.len());
        return false;
    }
    let mut i: usize = 0;
    while i < a.len()
        invariant
            i <= a@.len(),
            a@.len() == b@.len(),
            x == field::values(a@),
            y == field::values(b@),
            forall|k: int| 0 <= k < i ==> #[trigger] x[k] == y[k],
        decreases a@.len() - i,
    {
        if !a[i].equals(&b[i]) {
            assert(x[i as int] != y[i as int]);
            return false;
        }
        i = i + 1;
    }
    assert(x =~= y);
    true
}

/// The scheme accepts every opening proof that it makes itself.
pub proof fn lemma_plain_accepts<F: JoltField>()
    ensures
        commitment::accepts_own_openings::<PlainScheme<F>>(),
{
}

/// The scheme accepts no opening but that of the true values of the committed polynomials.
pub proof fn lemma_plain_opens_only_true_values<F: JoltField>(setup: usize)
    ensures
        commitment::opens_only_true_values::<PlainScheme<F>>(
            setup,
            |c: PlainCommitment<F>| field::values(c.evals@),
        ),
{
    let table = |c: PlainCommitment<F>| field::values(c.evals@);
    assert forall|
        proof: (),
        point: Seq<int>,
        openings: Seq<int>,
        commitments: Seq<PlainCommitment<F>>,
        state: Seq<u8>,
    | #[trigger]
        PlainScheme::<F>::accepts(proof, setup, point, openings, commitments, state) implies openings
        == poly::evals_at(
        commitment::committed_tables::<PlainScheme<F>>(table, commitments),
        point,
        F::modulus(),
    ) by {
        assert(commitment::committed_tables::<PlainScheme<F>>(table, commitments) =~= committed(
            commitments,
        ));
    }
}

/// Different commitments lead to different states, or else they give a collision of the hash
/// function.
pub proof fn lemma_plain_commitment_binds<F: JoltField>(
    s1: Seq<u8>,
    s2: Seq<u8>,
    label: Seq<char>,
    a: PlainCommitment<F>,
    b: PlainCommitment<F>,
) -> (c: (Seq<u8>, Seq<u8>))
    requires
        a.evals@.len() == b.evals@.len(),
        s1 != s2 || field::values(a.evals@) != field::values(b.evals@),
        a.absorbed(s1, label) == b.absorbed(s2, label),
    ensures
        transcript::collides(c.0, c.1),
{
    field::lemma_values_canonical(a.evals@);
    field::lemma_values_canonical(b.evals@);
    transcript::lemma_absorb_scalars_binds::<F>(
        s1,
        s2,
        label,
        field::values(a.evals@),
        field::values(b.evals@),
    )
}

/// Both sequences commit to as many polynomials, with as many values each.
pub open spec fn same_shape<F: JoltField>(
    a: Seq<PlainCommitment<F>>,
    b: Seq<PlainCommitment<F>>,
) -> bool {
    &&& a.len() == b.len()
    &&& forall|i: int|
        0 <= i < a.len() ==> (#[trigger] a[i]).evals@.len() == b[i].evals@.len()
}

proof fn lemma_commitments_bind<F: JoltField>(
    s1: Seq<u8>,
    s2: Seq<u8>,
    a: Seq<PlainCommitment<F>>,
    b: Seq<PlainCommitment<F>>,
) -> (c: (Seq<u8>, Seq<u8>))
    requires
        same_shape(a, b),
        s1 != s2 || committed(a) != committed(b),
        quark::absorb_commitments(s1, a) == quark::absorb_commitments(s2, b),
    ensures
        transcript::collides(c.0, c.1),
    decreases a.len(),
{
    if a.len() == 0 {
        assert(committed(a) =~= committed(b));
        (s1, s2)
    } else {
        let (x, y) = (a.drop_last(), b.drop_last());
        let p = quark::absorb_commitments(s1, x);
        let q = quark::absorb_commitments(s2, y);
        assert(a.last() == a[a.len() - 1] && b.last() == b[b.len() - 1]);
        assert(a[a.len() - 1].evals@.len() == b[a.len() - 1].evals@.len());
        if p != q || field::values(a.last().evals@) != field::values(b.last().evals@) {
            lemma_plain_commitment_binds(p, q, "f commitment"@, a.last(), b.last())
        } else {
            if committed(x) == committed(y) {
                assert(committed(a) =~= committed(x).push(field::values(a.last().evals@)));
                assert(committed(b) =~= committed(y).push(field::values(b.last().evals@)));
            }
            assert(same_shape(x, y)) by {
                assert forall|i: int| 0 <= i < x.len() implies (#[trigger] x[i]).evals@.len()
                    == y[i].evals@.len() by {
                    assert(x[i] == a[i] && y[i] == b[i]);
                }
            }
            lemma_commitments_bind(s1, s2, x, y)
        }
    }
}

/// Quark proofs of different claims, with different commitments, or after different messages
/// do not draw their challenges in the same states, or else they give a collision of the hash
/// function.
pub proof fn lemma_plain_challenges_bind<F: JoltField>(
    s1: Seq<u8>,
    s2: Seq<u8>,
    claims1: Seq<int>,
    claims2: Seq<int>,
    a: Seq<PlainCommitment<F>>,
    b: Seq<PlainCommitment<F>>,
    n: nat,
    l: nat,
) -> (c: (Seq<u8>, Seq<u8>))
    requires
        claims1.len() == claims2.len(),
        field::canonical::<F>(claims1),
        field::canonical::<F>(claims2),
        same_shape(a, b),
        s1 != s2 || claims1 != claims2 || committed(a) != committed(b),
        quark::drawn_state(quark::committed_state::<PlainScheme<F>>(s1, claims1, a), n, l)
            == quark::drawn_state(quark::committed_state::<PlainScheme<F>>(s2, claims2, b), n, l),
    ensures
        transcript::collides(c.0, c.1),
{
    let claim = "grand product claim"@;
    let (p, q) = (
        transcript::absorb_scalars::<F>(s1, claim, claims1),
        transcript::absorb_scalars::<F>(s2, claim, claims2),
    );
    let (u, v) = (quark::absorb_commitments(p, a), quark::absorb_commitments(q, b));
    let eval = "element for eval poly"@;
    let (x, y) = (
        transcript::squeeze_many(u, eval, n),
        transcript::squeeze_many(v, eval, n),
    );
    if x != y {
        transcript::lemma_draws_bind(x, y, "for the random linear comb"@, l)
    } else if u != v {
        transcript::lemma_draws_bind(u, v, eval, n)
    } else if p != q || committed(a) != committed(b) {
        lemma_commitments_bind(p, q, a, b)
    } else {
        transcript::lemma_absorb_scalars_binds::<F>(s1, s2, claim, claims1, claims2)
    }
}

/// Openings of different values lead to different states, or else they give a collision of the
/// hash function.
pub proof fn lemma_plain_openings_bind<F: JoltField>(
    setup: usize,
    s1: Seq<u8>,
    s2: Seq<u8>,
    point: Seq<int>,
    a: Seq<int>,
    b: Seq<int>,
    commitments: Seq<PlainCommitment<F>>,
) -> (c: (Seq<u8>, Seq<u8>))
    requires
        a.len() == b.len(),
        field::canonical::<F>(a),
        field::canonical::<F>(b),
        s1 != s2 || a != b,
        PlainScheme::<F>::after_verify((), setup, point, a, commitments, s1)
            == PlainScheme::<F>::after_verify((), setup, point, b, commitments, s2),
    ensures
        transcript::collides(c.0, c.1),
{
    transcript::lemma_absorb_scalars_binds::<F>(s1, s2, "openings"@, a, b)
}

} // verus!
