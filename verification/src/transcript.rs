//! The Fiat-Shamir transcript.
//!
//! The state of a transcript is a string of bytes. Every message and every
//! challenge replaces it by a Keccak-256 digest of the state, the label and the
//! message, so that a challenge depends on all that went before it.
use crate::field;
use crate::field::JoltField;
use sha3::Digest;
use vstd::prelude::*;

verus! {

/// The Keccak-256 digest of `data`.
pub uninterp spec fn keccak256(data: Seq<u8>) -> Seq<u8>;

/// The Keccak-256 digest of `data`.
///
/// Calls `sha3::Keccak256::digest`. Believed: the digest is a function of the
/// bytes that are hashed.
#[verifier::external_body]
fn keccak256_digest(data: &[u8]) -> (r: Vec<u8>)
    ensures
        r@ == keccak256(data@),
{
    sha3::Keccak256::digest(data).to_vec()
}

/// What is hashed for a message of the kind `tag`.
pub open spec fn frame(state: Seq<u8>, label: Seq<char>, tag: u8, message: Seq<u8>) -> Seq<u8> {
    state + keccak256(vstd::utf8::encode_utf8(label)) + seq![tag] + message
}

/// The state of a new transcript.
pub open spec fn initial(label: Seq<char>) -> Seq<u8> {
    keccak256(vstd::utf8::encode_utf8(label))
}

/// The state after the message `bytes`.
#[verifier::opaque]
pub open spec fn absorb(state: Seq<u8>, label: Seq<char>, bytes: Seq<u8>) -> Seq<u8> {
    keccak256(frame(state, label, 0, bytes))
}

/// The state after the scalars with the representatives `v`, one message each.
pub open spec fn absorb_each<F: JoltField>(state: Seq<u8>, label: Seq<char>, v: Seq<int>) -> Seq<u8>
    decreases v.len(),
{
    if v.len() == 0 {
        state
    } else {
        absorb(absorb_each::<F>(state, label, v.drop_last()), label, F::encoding(v.last()))
    }
}

/// The state after a vector of scalars with the representatives `v`.
#[verifier::opaque]
pub open spec fn absorb_scalars<F: JoltField>(
    state: Seq<u8>,
    label: Seq<char>,
    v: Seq<int>,
) -> Seq<u8> {
    absorb(
        absorb_each::<F>(
            absorb(state, label, vstd::utf8::encode_utf8("begin_append_vector"@)),
            label,
            v,
        ),
        label,
        vstd::utf8::encode_utf8("end_append_vector"@),
    )
}

/// The state after a challenge.
#[verifier::opaque]
pub open spec fn squeeze(state: Seq<u8>, label: Seq<char>) -> Seq<u8> {
    keccak256(frame(state, label, 1, Seq::empty()))
}

/// The challenge that is drawn in the state `state`.
pub open spec fn challenge<F: JoltField>(state: Seq<u8>, label: Seq<char>) -> int {
    F::decoding(squeeze(state, label))
}

/// The state after `n` challenges.
pub open spec fn squeeze_many(state: Seq<u8>, label: Seq<char>, n: nat) -> Seq<u8>
    decreases n,
{
    if n == 0 {
        state
    } else {
        squeeze(squeeze_many(state, label, (n - 1) as nat), label)
    }
}

/// The `n` challenges that are drawn from the state `state` on.
pub open spec fn challenges<F: JoltField>(state: Seq<u8>, label: Seq<char>, n: nat) -> Seq<int> {
    Seq::new(n, |i: int| challenge::<F>(squeeze_many(state, label, i as nat), label))
}

/// Two byte strings with one digest.
pub open spec fn collides(a: Seq<u8>, b: Seq<u8>) -> bool {
    a != b && keccak256(a) == keccak256(b)
}

/// Framed messages of one length under one label are the same only if the states and the
/// messages are.
proof fn lemma_frame(
    s1: Seq<u8>,
    s2: Seq<u8>,
    label: Seq<char>,
    tag: u8,
    a: Seq<u8>,
    b: Seq<u8>,
)
    requires
        a.len() == b.len() || s1 == s2,
        frame(s1, label, tag, a) == frame(s2, label, tag, b),
    ensures
        s1 == s2,
        a == b,
{
    let k = keccak256(vstd::utf8::encode_utf8(label));
    let x = frame(s1, label, tag, a);
    let y = frame(s2, label, tag, b);
    assert(x.len() == s1.len() + k.len() + 1 + a.len());
    assert(y.len() == s2.len() + k.len() + 1 + b.len());
    assert(s1 =~= x.take(s1.len() as int));
    assert(s2 =~= y.take(s2.len() as int));
    assert(a =~= x.skip((s1.len() + k.len() + 1) as int));
    assert(b =~= y.skip((s2.len() + k.len() + 1) as int));
}

/// Transcripts that differ before a message, or in it, differ after it, or else they give a
/// collision of the hash function.
///
/// The messages are of one length, or come in the same state.
pub proof fn lemma_absorb_binds(
    s1: Seq<u8>,
    s2: Seq<u8>,
    label: Seq<char>,
    a: Seq<u8>,
    b: Seq<u8>,
) -> (c: (Seq<u8>, Seq<u8>))
    requires
        s1 != s2 || a != b,
        a.len() == b.len() || s1 == s2,
        absorb(s1, label, a) == absorb(s2, label, b),
    ensures
        collides(c.0, c.1),
{
    reveal(absorb);
    let c = (frame(s1, label, 0, a), frame(s2, label, 0, b));
    if c.0 == c.1 {
        lemma_frame(s1, s2, label, 0, a, b);
    }
    c
}

/// Transcripts that differ before a challenge differ after it, or else they give a collision
/// of the hash function.
pub proof fn lemma_squeeze_binds(s1: Seq<u8>, s2: Seq<u8>, label: Seq<char>) -> (c: (
    Seq<u8>,
    Seq<u8>,
))
    requires
        s1 != s2,
        squeeze(s1, label) == squeeze(s2, label),
    ensures
        collides(c.0, c.1),
{
    reveal(squeeze);
    let e = Seq::<u8>::empty();
    let c = (frame(s1, label, 1, e), frame(s2, label, 1, e));
    if c.0 == c.1 {
        lemma_frame(s1, s2, label, 1, e, e);
    }
    c
}

/// A challenge and a message do not lead to the same state, or else they give a collision of
/// the hash function.
pub proof fn lemma_squeeze_is_no_message(state: Seq<u8>, label: Seq<char>, bytes: Seq<u8>) -> (c: (
    Seq<u8>,
    Seq<u8>,
))
    requires
        squeeze(state, label) == absorb(state, label, bytes),
    ensures
        collides(c.0, c.1),
{
    reveal(squeeze);
    reveal(absorb);
    let x = frame(state, label, 1, Seq::empty());
    let y = frame(state, label, 0, bytes);
    let k = (state + keccak256(vstd::utf8::encode_utf8(label))).len() as int;
    assert(x[k] == 1 && y[k] == 0);
    (x, y)
}

proof fn lemma_frame_labels(
    state: Seq<u8>,
    l1: Seq<char>,
    l2: Seq<char>,
    tag: u8,
    bytes: Seq<u8>,
) -> (c: (Seq<u8>, Seq<u8>))
    requires
        vstd::utf8::encode_utf8(l1) != vstd::utf8::encode_utf8(l2),
        keccak256(frame(state, l1, tag, bytes)) == keccak256(frame(state, l2, tag, bytes)),
    ensures
        collides(c.0, c.1),
{
    let (e1, e2) = (vstd::utf8::encode_utf8(l1), vstd::utf8::encode_utf8(l2));
    let (k1, k2) = (keccak256(e1), keccak256(e2));
    let (x, y) = (frame(state, l1, tag, bytes), frame(state, l2, tag, bytes));
    if x == y {
        let n = state.len() as int;
        assert(x.len() == n + k1.len() + 1 + bytes.len());
        assert(y.len() == n + k2.len() + 1 + bytes.len());
        assert(k1 =~= x.subrange(n, n + k1.len()));
        assert(k2 =~= y.subrange(n, n + k2.len()));
        (e1, e2)
    } else {
        (x, y)
    }
}

/// A message leads to different states under different labels, or else they give a collision
/// of the hash function.
pub proof fn lemma_absorb_labels(
    state: Seq<u8>,
    l1: Seq<char>,
    l2: Seq<char>,
    bytes: Seq<u8>,
) -> (c: (Seq<u8>, Seq<u8>))
    requires
        vstd::utf8::encode_utf8(l1) != vstd::utf8::encode_utf8(l2),
        absorb(state, l1, bytes) == absorb(state, l2, bytes),
    ensures
        collides(c.0, c.1),
{
    reveal(absorb);
    lemma_frame_labels(state, l1, l2, 0, bytes)
}

/// A challenge leads to different states under different labels, or else they give a collision
/// of the hash function.
pub proof fn lemma_squeeze_labels(state: Seq<u8>, l1: Seq<char>, l2: Seq<char>) -> (c: (
    Seq<u8>,
    Seq<u8>,
))
    requires
        vstd::utf8::encode_utf8(l1) != vstd::utf8::encode_utf8(l2),
        squeeze(state, l1) == squeeze(state, l2),
    ensures
        collides(c.0, c.1),
{
    reveal(squeeze);
    lemma_frame_labels(state, l1, l2, 1, Seq::empty())
}

/// Transcripts with different labels start in different states, or else they give a collision
/// of the hash function.
pub proof fn lemma_initial_labels(l1: Seq<char>, l2: Seq<char>) -> (c: (Seq<u8>, Seq<u8>))
    requires
        vstd::utf8::encode_utf8(l1) != vstd::utf8::encode_utf8(l2),
        initial(l1) == initial(l2),
    ensures
        collides(c.0, c.1),
{
    (vstd::utf8::encode_utf8(l1), vstd::utf8::encode_utf8(l2))
}

proof fn lemma_absorb_each_binds<F: JoltField>(
    s1: Seq<u8>,
    s2: Seq<u8>,
    label: Seq<char>,
    a: Seq<int>,
    b: Seq<int>,
) -> (c: (Seq<u8>, Seq<u8>))
    requires
        a.len() == b.len(),
        field::canonical::<F>(a),
        field::canonical::<F>(b),
        s1 != s2 || a != b,
        absorb_each::<F>(s1, label, a) == absorb_each::<F>(s2, label, b),
    ensures
        collides(c.0, c.1),
    decreases a.len(),
{
    if a.len() == 0 {
        assert(a =~= b);
        (s1, s2)
    } else {
        let p = absorb_each::<F>(s1, label, a.drop_last());
        let q = absorb_each::<F>(s2, label, b.drop_last());
        let (x, y) = (F::encoding(a.last()), F::encoding(b.last()));
        F::lemma_encoding(a.last(), b.last());
        if p != q || x != y {
            lemma_absorb_binds(p, q, label, x, y)
        } else {
            assert(a.last() == b.last());
            if a.drop_last() == b.drop_last() {
                assert(a =~= a.drop_last().push(a.last()));
                assert(b =~= b.drop_last().push(b.last()));
            }
            lemma_absorb_each_binds::<F>(s1, s2, label, a.drop_last(), b.drop_last())
        }
    }
}

/// Transcripts that differ before a vector of scalars, or in it, differ after it, or else
/// they give a collision of the hash function.
pub proof fn lemma_absorb_scalars_binds<F: JoltField>(
    s1: Seq<u8>,
    s2: Seq<u8>,
    label: Seq<char>,
    a: Seq<int>,
    b: Seq<int>,
) -> (c: (Seq<u8>, Seq<u8>))
    requires
        a.len() == b.len(),
        field::canonical::<F>(a),
        field::canonical::<F>(b),
        s1 != s2 || a != b,
        absorb_scalars::<F>(s1, label, a) == absorb_scalars::<F>(s2, label, b),
    ensures
        collides(c.0, c.1),
{
    reveal(absorb_scalars);
    let begin = vstd::utf8::encode_utf8("begin_append_vector"@);
    let end = vstd::utf8::encode_utf8("end_append_vector"@);
    let (p, q) = (absorb(s1, label, begin), absorb(s2, label, begin));
    let x = absorb_each::<F>(p, label, a);
    let y = absorb_each::<F>(q, label, b);
    if x != y {
        lemma_absorb_binds(x, y, label, end, end)
    } else if p != q || a != b {
        lemma_absorb_each_binds::<F>(p, q, label, a, b)
    } else {
        lemma_absorb_binds(s1, s2, label, begin, begin)
    }
}

/// Challenges are drawn one after the other: each is read from the state that its own draw
/// leaves, and the next one is drawn in that state.
pub proof fn lemma_draws<F: JoltField>(state: Seq<u8>, label: Seq<char>, n: nat)
    ensures
        challenges::<F>(state, label, 0) == Seq::<int>::empty(),
        squeeze_many(state, label, 0) == state,
        squeeze_many(state, label, n + 1) == squeeze(squeeze_many(state, label, n), label),
        challenges::<F>(state, label, n + 1) == challenges::<F>(state, label, n).push(
            F::decoding(squeeze_many(state, label, n + 1)),
        ),
{
    assert(challenges::<F>(state, label, n + 1) =~= challenges::<F>(state, label, n).push(
        F::decoding(squeeze_many(state, label, n + 1)),
    ));
}

/// Transcripts that differ before challenges differ after them, or else they give a collision
/// of the hash function.
pub proof fn lemma_draws_bind(s1: Seq<u8>, s2: Seq<u8>, label: Seq<char>, n: nat) -> (c: (
    Seq<u8>,
    Seq<u8>,
))
    requires
        s1 != s2,
        squeeze_many(s1, label, n) == squeeze_many(s2, label, n),
    ensures
        collides(c.0, c.1),
    decreases n,
{
    if n == 0 {
        (s1, s2)
    } else {
        let k = (n - 1) as nat;
        let (p, q) = (squeeze_many(s1, label, k), squeeze_many(s2, label, k));
        if p != q {
            lemma_squeeze_binds(p, q, label)
        } else {
            lemma_draws_bind(s1, s2, label, k)
        }
    }
}

/// A transcript of a proof, from which the challenges are drawn.
pub struct ProofTranscript {
    state: Vec<u8>,
}

impl ProofTranscript {
    /// The bytes on which all further challenges depend.
    pub closed spec fn view(&self) -> Seq<u8> {
        self.state@
    }

    /// A transcript that holds no message yet.
    pub fn new(label: &str) -> (r: Self)
        ensures
            r@ == initial(label@),
    {
        ProofTranscript { state: keccak256_digest(label.as_bytes()) }
    }

    /// Replaces the state by the digest of a framed message.
    fn update(&mut self, label: &str, tag: u8, message: &[u8])
        ensures
            final(self)@ == keccak256(frame(old(self)@, label@, tag, message@)),
    {
        let mut data: Vec<u8> = Vec::new();
        let mut name = keccak256_digest(label.as_bytes());
        data.append(&mut self.state);
        data.append(&mut name);
        data.push(tag);
        push_all(&mut data, message);
        assert(data@ =~= frame(old(self)@, label@, tag, message@));
        self.state = keccak256_digest(data.as_slice());
    }

    /// Adds a message to the transcript.
    pub fn append_bytes(&mut self, label: &str, bytes: &[u8])
        ensures
            final(self)@ == absorb(old(self)@, label@, bytes@),
    {
        reveal(absorb);
        self.update(label, 0, bytes);
    }

    /// Adds a scalar to the transcript.
    pub fn append_scalar<F: JoltField>(&mut self, label: &str, scalar: &F)
        ensures
            final(self)@ == absorb(old(self)@, label@, F::encoding(scalar@)),
    {
        let bytes = scalar.to_bytes();
        self.append_bytes(label, bytes.as_slice());
    }

    /// Adds a vector of scalars to the transcript.
    pub fn append_scalars<F: JoltField>(&mut self, label: &str, scalars: &[F])
        ensures
            final(self)@ == absorb_scalars::<F>(old(self)@, label@, field::values(scalars@)),
    {
        let ghost v = field::values(scalars@);
        let ghost start = absorb(
            old(self)@,
            label@,
            vstd::utf8::encode_utf8("begin_append_vector"@),
        );
        self.append_bytes(label, "begin_append_vector".as_bytes());
        let mut i: usize = 0;
        while i < scalars.len()
            invariant
                i <= scalars@.len(),
                v == field::values(scalars@),
                self@ == absorb_each::<F>(start, label@, v.take(i as int)),
            decreases scalars@.len() - i,
        {
            self.append_scalar(label, &scalars[i]);
            assert(v.take(i + 1).drop_last() =~= v.take(i as int));
            i = i + 1;
        }
        assert(v.take(v.len() as int) =~= v);
        self.append_bytes(label, "end_append_vector".as_bytes());
        reveal(absorb_scalars);
    }

    /// Draws a challenge.
    pub fn challenge_scalar<F: JoltField>(&mut self, label: &str) -> (r: F)
        ensures
            r@ == challenge::<F>(old(self)@, label@),
            r@ == F::decoding(final(self)@),
            final(self)@ == squeeze(old(self)@, label@),
    {
        reveal(squeeze);
        let none: Vec<u8> = Vec::new();
        self.update(label, 1, none.as_slice());
        F::from_bytes(self.state.as_slice())
    }

    /// Draws `len` challenges.
    pub fn challenge_vector<F: JoltField>(&mut self, label: &str, len: usize) -> (r: Vec<F>)
        ensures
            field::values(r@) == challenges::<F>(old(self)@, label@, len as nat),
            final(self)@ == squeeze_many(old(self)@, label@, len as nat),
    {
        let mut r: Vec<F> = Vec::new();
        let mut i: usize = 0;
        while i < len
            invariant
                i <= len,
                r@.len() == i,
                self@ == squeeze_many(old(self)@, label@, i as nat),
                forall|j: int|
                    0 <= j < i ==> (#[trigger] r@[j])@ == challenge::<F>(
                        squeeze_many(old(self)@, label@, j as nat),
                        label@,
                    ),
            decreases len - i,
        {
            let x: F = self.challenge_scalar(label);
            r.push(x);
            i = i + 1;
        }
        assert(field::values(r@) =~= challenges::<F>(old(self)@, label@, len as nat));
        r
    }
}

/// Appends a copy of `more` to `bytes`.
fn push_all(bytes: &mut Vec<u8>, more: &[u8])
    ensures
        final(bytes)@ == old(bytes)@ + more@,
{
    let mut i: usize = 0;
    while i < more.len()
        invariant
            i <= more@.len(),
            bytes@ == old(bytes)@ + more@.take(i as int),
        decreases more@.len() - i,
    {
        bytes.push(more[i]);
        assert(more@.take(i + 1) =~= more@.take(i as int).push(more@[i as int]));
        i = i + 1;
    }
    assert(more@.take(more@.len() as int) =~= more@);
}

/// A message that can be added to a transcript.
pub trait AppendToTranscript {
    /// The state after this message.
    spec fn absorbed(&self, state: Seq<u8>, label: Seq<char>) -> Seq<u8>;

    fn append_to_transcript(&self, label: &str, transcript: &mut ProofTranscript)
        ensures
            final(transcript)@ == self.absorbed(old(transcript)@, label@),
    ;
}

} // verus!
