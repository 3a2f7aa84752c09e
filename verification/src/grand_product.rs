//! Batches of grand products.
//!
//! The bottom layers of the tree of products are proved layer by layer. The layer on top
//! of them is proved by a quark proof, which hands a claim on that layer to the proofs of
//! the layers below.
use crate::arith;
use crate::commitment;
use crate::commitment::CommitmentScheme;
use crate::completeness;
use crate::errors::GrandProductError;
use crate::field;
use crate::field::JoltField;
use crate::layer;
use crate::layer::{BatchedDenseGrandProductLayer, BatchedGrandProductLayerProof};
use crate::math;
use crate::mle;
use crate::poly;
use crate::quark;
use crate::quark::QuarkGrandProductProof;
use crate::quark_identity;
use crate::transcript::ProofTranscript;
use vstd::arithmetic::power2::*;
use vstd::prelude::*;

verus! {

/// The number of layers at the bottom of the tree of products that are proved layer by
/// layer, if the tree is deep enough.
pub const QUARK_HYBRID_LAYER_DEPTH: usize = 3;

/// The trees of products of a batch of grand products.
pub struct QuarkGrandProduct<F: JoltField> {
    polynomials: Vec<Vec<F>>,
    base_layers: Vec<BatchedDenseGrandProductLayer<F>>,
}

/// A proof of a batch of grand products.
pub struct BatchedGrandProductProof<C: CommitmentScheme> {
    /// The proofs of the bottom layers, the one next to the quark layer first.
    pub layers: Vec<BatchedGrandProductLayerProof<C::Field>>,
    /// The proof of the layers on top.
    pub quark_proof: Option<QuarkGrandProductProof<C>>,
}

/// The number of layers that are proved layer by layer for `n` leaves.
pub open spec fn hybrid_depth(n: int) -> nat {
    if math::log2(n) <= QUARK_HYBRID_LAYER_DEPTH {
        (math::log2(n) - 1) as nat
    } else {
        QUARK_HYBRID_LAYER_DEPTH as nat
    }
}

/// The layer `d` steps above the layer `rows`.
pub open spec fn layer_above(rows: Seq<Seq<int>>, d: nat, m: int) -> Seq<Seq<int>>
    decreases d,
{
    if d == 0 {
        rows
    } else {
        layer::next_layer(layer_above(rows, (d - 1) as nat, m), m)
    }
}

/// The layers from `rows` up to the layer `d` steps above.
pub open spec fn tower(rows: Seq<Seq<int>>, d: nat, m: int) -> Seq<Seq<Seq<int>>> {
    Seq::new(d + 1, |e: int| layer_above(rows, e as nat, m))
}

/// The layer `d` of `levels` is made of polynomials, one for each grand product, and the
/// layer above it is made of it. The last layer has `n` variables.
pub open spec fn level_fits(levels: Seq<Seq<Seq<int>>>, n: nat, d: int, m: int) -> bool {
    &&& levels[d].len() == levels[0].len()
    &&& poly::tables_have_vars(levels[d], (n + levels.len() - 1 - d) as nat)
    &&& d + 1 < levels.len() ==> levels[d + 1] == layer::next_layer(levels[d], m)
}

/// `levels` are layers of products, the bottom one first and each made of the one below it.
/// The top one is made of polynomials with `n` variables.
pub open spec fn chained(levels: Seq<Seq<Seq<int>>>, n: nat, m: int) -> bool {
    &&& levels.len() > 0
    &&& levels[0].len() > 0
    &&& forall|d: int| 0 <= d < levels.len() ==> #[trigger] level_fits(levels, n, d, m)
}

/// The state of the transcript after the proofs of layers of `l` grand products.
pub open spec fn layers_state<F: JoltField>(
    proofs: Seq<BatchedGrandProductLayerProof<F>>,
    l: nat,
    state: Seq<u8>,
) -> Seq<u8>
    decreases proofs.len(),
{
    if proofs.len() == 0 {
        state
    } else {
        proofs.last().next_state(layers_state(proofs.drop_last(), l, state), l)
    }
}

/// The point to which the proofs of layers move claims at `r`.
pub open spec fn layers_point<F: JoltField>(
    proofs: Seq<BatchedGrandProductLayerProof<F>>,
    l: nat,
    r: Seq<int>,
    state: Seq<u8>,
) -> Seq<int> {
    if proofs.len() == 0 {
        r
    } else {
        proofs.last().next_point(layers_state(proofs.drop_last(), l, state), l)
    }
}

/// The proofs are those that the protocol prescribes for the layers `base`, of which the
/// last is proved first, and claims at the point `r`.
pub open spec fn layers_prove<F: JoltField>(
    base: Seq<Seq<Seq<int>>>,
    l: nat,
    proofs: Seq<BatchedGrandProductLayerProof<F>>,
    r: Seq<int>,
    state: Seq<u8>,
) -> bool {
    &&& proofs.len() == base.len()
    &&& forall|p: int|
        0 <= p < proofs.len() ==> (#[trigger] proofs[p]).proves(
            base[base.len() - 1 - p],
            layers_point(proofs.take(p), l, r, state),
            layers_state(proofs.take(p), l, state),
        )
}

/// `proof` is the proof that the protocol prescribes for `levels`, the last of which is
/// proved by a quark proof with `n` variables.
///
/// The prover starts with the transcript in the state `state` and leaves it in the state
/// `end`. It hands on the point `r`.
pub open spec fn proves<C: CommitmentScheme>(
    levels: Seq<Seq<Seq<int>>>,
    n: nat,
    setup: C::Setup,
    state: Seq<u8>,
    proof: BatchedGrandProductProof<C>,
    r: Seq<int>,
    end: Seq<u8>,
) -> bool {
    let l = levels[0].len();
    exists|q: QuarkGrandProductProof<C>, point: Seq<int>, claims: Seq<int>, mid: Seq<u8>|
        {
            &&& proof.quark_proof == Some(q)
            &&& #[trigger] quark::proves(levels.last(), n, setup, state, q, point, claims, mid)
            &&& layers_prove(levels.drop_last(), l, proof.layers@, point, mid)
            &&& r == layers_point(proof.layers@, l, point, mid)
            &&& end == layers_state(proof.layers@, l, mid)
        }
}

/// What the verifier answers to the proofs of layers for `claims` at the point `r`, and
/// the state in which it leaves the transcript.
pub open spec fn layers_verdict<F: JoltField>(
    proofs: Seq<BatchedGrandProductLayerProof<F>>,
    claims: Seq<int>,
    r: Seq<int>,
    state: Seq<u8>,
) -> (Result<(Seq<int>, Seq<int>), GrandProductError>, Seq<u8>)
    decreases proofs.len(),
{
    if proofs.len() == 0 {
        (Ok((claims, r)), state)
    } else {
        match layers_verdict(proofs.drop_last(), claims, r, state) {
            (Err(e), s) => (Err(e), s),
            (Ok((c, p)), s) => proofs.last().verdict(c, p, s),
        }
    }
}

/// What the verifier answers to `proof`, and the state in which it leaves the transcript.
///
/// It accepts with claims on the leaves, and the point at which they are claimed.
pub open spec fn verdict<C: CommitmentScheme>(
    proof: BatchedGrandProductProof<C>,
    claims: Seq<int>,
    setup: Option<C::Setup>,
    state: Seq<u8>,
) -> (Result<(Seq<int>, Seq<int>), GrandProductError>, Seq<u8>) {
    match proof.quark_proof {
        None => layers_verdict(proof.layers@, claims, Seq::empty(), state),
        Some(q) => match setup {
            None => (Err(GrandProductError::MissingSetup), state),
            Some(setup) => match quark::verdict(q, claims, q.num_vars as nat, setup, state) {
                (Err(e), s) => (Err(GrandProductError::Quark(e)), s),
                (Ok((c, p)), s) => layers_verdict(proof.layers@, c, p, s),
            },
        },
    }
}

/// An error in a proof of a layer stands, whatever comes after it.
proof fn lemma_first_error<F: JoltField>(
    proofs: Seq<BatchedGrandProductLayerProof<F>>,
    i: int,
    claims: Seq<int>,
    r: Seq<int>,
    state: Seq<u8>,
)
    requires
        0 <= i <= proofs.len(),
        layers_verdict(proofs.take(i), claims, r, state).0 is Err,
    ensures
        layers_verdict(proofs, claims, r, state) == layers_verdict(
            proofs.take(i),
            claims,
            r,
            state,
        ),
    decreases proofs.len(),
{
    if i == proofs.len() {
        assert(proofs.take(i) =~= proofs);
    } else {
        assert(proofs.drop_last().take(i) =~= proofs.take(i));
        lemma_first_error(proofs.drop_last(), i, claims, r, state);
    }
}

/// The length of a layer `d` steps above a layer with `n` entries.
proof fn lemma_layer_len(rows: Seq<Seq<int>>, d: nat, k: nat, m: int)
    requires
        rows.len() > 0,
        k * pow2(d) <= rows[0].len(),
    ensures
        layer_above(rows, d, m).len() == rows.len(),
        layer_above(rows, d, m)[0].len() >= k,
    decreases d,
{
    lemma2_to64();
    if d > 0 {
        mle::lemma_halves(d);
        let h = pow2((d - 1) as nat);
        assert(k * (2 * h) == (2 * k) * h) by (nonlinear_arith);
        lemma_layer_len(rows, (d - 1) as nat, 2 * k, m);
    } else {
        assert(k * 1 == k);
    }
}

/// The layers above polynomials with `n` variables: each has one variable less, and the
/// product of all its entries is the same.
pub proof fn lemma_layer_above(rows: Seq<Seq<int>>, n: nat, d: nat, m: int)
    requires
        m > 0,
        d <= n,
        rows.len() > 0,
        poly::tables_have_vars(rows, n),
    ensures
        layer_above(rows, d, m).len() == rows.len(),
        poly::tables_have_vars(layer_above(rows, d, m), (n - d) as nat),
        quark_identity::products(layer_above(rows, d, m), m) == quark_identity::products(rows, m),
    decreases d,
{
    if d > 0 {
        let below = layer_above(rows, (d - 1) as nat, m);
        lemma_layer_above(rows, n, (d - 1) as nat, m);
        lemma_next_layer_products(below, (n - d) as nat, m);
    }
}

/// The layer of products of neighbours has one variable less, and the product of all its
/// entries is the same.
pub proof fn lemma_next_layer_products(rows: Seq<Seq<int>>, n: nat, m: int)
    requires
        m > 0,
        rows.len() > 0,
        poly::tables_have_vars(rows, n + 1),
    ensures
        poly::tables_have_vars(layer::next_layer(rows, m), n),
        quark_identity::products(layer::next_layer(rows, m), m) == quark_identity::products(
            rows,
            m,
        ),
{
    let next = layer::next_layer(rows, m);
    mle::lemma_halves(n + 1);
    assert(rows[0].len() == pow2(n + 1));
    let a = quark_identity::products(next, m);
    let b = quark_identity::products(rows, m);
    assert forall|i: int| 0 <= i < rows.len() implies a[i] == b[i] by {
        assert(rows[i].len() == pow2(n + 1));
        lemma_pairs_product(rows[i], next[i], pow2(n) as int, m);
        assert(rows[i].take(2 * pow2(n) as int) =~= rows[i]);
        assert(next[i].take(pow2(n) as int) =~= next[i]);
    }
    assert(a =~= b);
}

proof fn lemma_pairs_product(row: Seq<int>, next: Seq<int>, k: int, m: int)
    requires
        m > 0,
        0 <= k <= next.len(),
        2 * k <= row.len(),
        forall|j: int| 0 <= j < k ==> #[trigger] next[j] == (row[2 * j] * row[2 * j + 1]) % m,
    ensures
        arith::cong(arith::product(next.take(k)), arith::product(row.take(2 * k)), m),
    decreases k,
{
    if k == 0 {
        assert(next.take(0) =~= Seq::<int>::empty());
        assert(row.take(0) =~= Seq::<int>::empty());
    } else {
        lemma_pairs_product(row, next, k - 1, m);
        let (x, y) = (row[2 * k - 2], row[2 * k - 1]);
        let p = arith::product(row.take(2 * k - 2));
        assert(next.take(k) =~= next.take(k - 1).push(next[k - 1]));
        assert(row.take(2 * k - 1) =~= row.take(2 * k - 2).push(x));
        assert(row.take(2 * k) =~= row.take(2 * k - 1).push(y));
        arith::lemma_product_push(next.take(k - 1), next[k - 1]);
        arith::lemma_product_push(row.take(2 * k - 2), x);
        arith::lemma_product_push(row.take(2 * k - 1), y);
        assert(2 * (k - 1) == 2 * k - 2);
        assert(next[k - 1] == (x * y) % m);
        arith::lemma_reduce(x * y, m);
        arith::lemma_cong_mul(
            arith::product(next.take(k - 1)),
            p,
            next[k - 1],
            x * y,
            m,
        );
        assert(p * (x * y) == p * x * y) by (nonlinear_arith);
    }
}

/// The layers from `rows` up to the layer `d` steps above are made of each other.
pub proof fn lemma_chained(rows: Seq<Seq<int>>, n: nat, d: nat, m: int)
    requires
        m > 0,
        rows.len() > 0,
        poly::tables_have_vars(rows, n + d),
    ensures
        chained(tower(rows, d, m), n, m),
{
    let levels = tower(rows, d, m);
    assert forall|e: int| 0 <= e < levels.len() implies #[trigger] level_fits(
        levels,
        n,
        e,
        m,
    ) by {
        lemma_layer_above(rows, n + d, e as nat, m);
    }
}

/// The number of layers proved layer by layer leaves at least one layer for the quark
/// proof, and one variable.
pub proof fn lemma_hybrid_depth(n: int)
    requires
        n >= 2,
    ensures
        hybrid_depth(n) < math::log2(n),
        hybrid_depth(n) <= QUARK_HYBRID_LAYER_DEPTH,
        pow2(hybrid_depth(n)) < n,
        n <= 16 ==> hybrid_depth(n) == (if n <= 2 {
            0int
        } else if n <= 4 {
            1
        } else if n <= 8 {
            2
        } else {
            3
        }),
        n > 16 ==> hybrid_depth(n) == 3,
{
    lemma2_to64();
    math::lemma_log2(n);
    let k = (math::log2(n) - 1) as nat;
    if hybrid_depth(n) < k {
        lemma_pow2_strictly_increases(hybrid_depth(n), k);
    }
    let j = math::log2(n);
    if k > 1 {
        lemma_pow2_strictly_increases(1, k);
    }
    if k > 2 {
        lemma_pow2_strictly_increases(2, k);
    }
    if k > 3 {
        lemma_pow2_strictly_increases(3, k);
    }
    if k > 4 {
        lemma_pow2_strictly_increases(4, k);
    }
    if j < 2 {
        lemma_pow2_strictly_increases(j, 2);
    }
    if j < 3 {
        lemma_pow2_strictly_increases(j, 3);
    }
    if j < 4 {
        lemma_pow2_strictly_increases(j, 4);
    }
}

impl<F: JoltField> QuarkGrandProduct<F> {
    /// The number of layers that are proved layer by layer.
    pub closed spec fn depth(&self) -> nat {
        self.base_layers@.len()
    }

    /// The layers `d` steps above the leaves.
    pub closed spec fn level(&self, d: int) -> Seq<Seq<int>> {
        if d < self.base_layers@.len() {
            self.base_layers@[d]@
        } else {
            field::rows(self.polynomials@)
        }
    }

    /// All layers up to the one that the quark proof starts from.
    pub open spec fn levels(&self) -> Seq<Seq<Seq<int>>> {
        Seq::new(self.depth() + 1, |d: int| self.level(d))
    }

    /// The number of variables of the layer that the quark proof starts from.
    pub open spec fn num_vars(&self) -> nat {
        math::log2(self.level(self.depth() as int)[0].len() as int)
    }

    /// There is a layer that the quark proof starts from, and there are few below it.
    pub open spec fn well_formed(&self) -> bool {
        &&& self.depth() <= QUARK_HYBRID_LAYER_DEPTH
        &&& self.level(self.depth() as int).len() > 0
        &&& self.level(self.depth() as int)[0].len() > 0
    }

    /// The layers can be proved: they are polynomials, and each is made of the one below.
    pub open spec fn provable(&self) -> bool {
        &&& self.num_vars() > 0
        &&& 2 * pow2(self.num_vars()) <= usize::MAX
        &&& chained(self.levels(), self.num_vars(), F::modulus())
        &&& self.lengths_fit()
    }

    /// The lengths that are kept with the layers are right.
    pub closed spec fn lengths_fit(&self) -> bool {
        forall|d: int|
            0 <= d < self.depth() ==> (#[trigger] self.base_layers@[d]).has_vars(
                (self.num_vars() + self.depth() - d) as nat,
            )
    }
}

/// The products of neighbours in a layer.
fn multiply_neighbours<F: JoltField>(previous: &BatchedDenseGrandProductLayer<F>) -> (r: Vec<
    Vec<F>,
>)
    requires
        previous@.len() > 0,
        previous.layer_len == previous@[0].len(),
        forall|i: int|
            0 <= i < previous@.len() ==> 2 * (previous.layer_len / 2) <= (
            #[trigger] previous@[i]).len(),
    ensures
        field::rows(r@) == layer::next_layer(previous@, F::modulus()),
{
    let ghost rows = previous@;
    let ghost m = F::modulus();
    let ghost want = layer::next_layer(rows, m);
    let len: usize = previous.layer_len / 2;
    let mut r: Vec<Vec<F>> = Vec::new();
    let mut i: usize = 0;
    while i < previous.layers.len()
        invariant
            i <= previous.layers@.len(),
            rows == previous@,
            m == F::modulus(),
            want == layer::next_layer(rows, m),
            len == rows[0].len() / 2,
            2 * len <= previous.layer_len,
            forall|k: int| 0 <= k < rows.len() ==> 2 * len <= (#[trigger] rows[k]).len(),
            r@.len() == i,
            forall|k: int| 0 <= k < i ==> field::values((#[trigger] r@[k])@) == want[k],
        decreases previous.layers@.len() - i,
    {
        let row = &previous.layers[i];
        let mut next: Vec<F> = Vec::new();
        let mut j: usize = 0;
        assert(2 * len <= rows[i as int].len());
        while j < len
            invariant
                j <= len,
                2 * len <= row@.len(),
                2 * len <= previous.layer_len,
                m == F::modulus(),
                next@.len() == j,
                forall|k: int|
                    0 <= k < j ==> (#[trigger] next@[k])@ == (row@[2 * k]@ * row@[2 * k + 1]@) % m,
            decreases len - j,
        {
            next.push(row[2 * j].mul(&row[2 * j + 1]));
            j = j + 1;
        }
        assert(field::values(next@) =~= want[i as int]);
        r.push(next);
        i = i + 1;
    }
    assert(field::rows(r@) =~= want);
    r
}

/// The product of the entries of `row`.
fn product_of<F: JoltField>(row: &Vec<F>) -> (r: F)
    ensures
        r@ == arith::product(field::values(row@)) % F::modulus(),
{
    let ghost v = field::values(row@);
    let ghost m = F::modulus();
    let mut acc = F::one();
    let mut i: usize = 0;
    proof {
        F::lemma_modulus();
        arith::lemma_reduced_fixed(1, m);
        assert(v.take(0) =~= Seq::<int>::empty());
    }
    while i < row.len()
        invariant
            i <= row@.len(),
            v == field::values(row@),
            m == F::modulus(),
            m > 1,
            acc@ == arith::product(v.take(i as int)) % m,
        decreases row@.len() - i,
    {
        let ghost before = arith::product(v.take(i as int));
        proof {
            arith::lemma_reduce(before, m);
            arith::lemma_cong_mul(acc@, before, v[i as int], v[i as int], m);
            assert(v.take(i + 1) =~= v.take(i as int).push(v[i as int]));
            arith::lemma_product_push(v.take(i as int), v[i as int]);
        }
        acc = acc.mul(&row[i]);
        i = i + 1;
    }
    assert(v.take(v.len() as int) =~= v);
    acc
}

impl<F: JoltField> QuarkGrandProduct<F> {
    /// Constructs the grand product circuit(s) from `leaves`.
    pub fn construct(leaves: Vec<Vec<F>>) -> (r: Self)
        requires
            leaves@.len() > 0,
            leaves@[0]@.len() >= 2,
            hybrid_depth(leaves@[0]@.len() as int) > 0 ==> forall|i: int|
                0 <= i < leaves@.len() ==> 2 * (leaves@[0]@.len() / 2) <= (
                #[trigger] leaves@[i])@.len(),
        ensures
            r.well_formed(),
            r.depth() == hybrid_depth(leaves@[0]@.len() as int),
            r.levels() == tower(field::rows(leaves@), r.depth(), F::modulus()),
            math::is_pow2(leaves@[0]@.len() as int) && (forall|i: int|
                0 <= i < leaves@.len() ==> (#[trigger] leaves@[i])@.len() == leaves@[0]@.len())
                ==> r.provable() && r.num_vars() + r.depth() == math::log2(
                leaves@[0]@.len() as int,
            ) && quark_identity::products(r.level(r.depth() as int), F::modulus())
                == quark_identity::products(field::rows(leaves@), F::modulus()),
    {
        let ghost rows = field::rows(leaves@);
        let ghost m = F::modulus();
        let leaf_len = leaves[0].len();
        let leave_depth = math::log_2(leaf_len);
        proof {
            F::lemma_modulus();
            lemma_hybrid_depth(leaf_len as int);
        }
        let num_layers: usize = if leave_depth <= QUARK_HYBRID_LAYER_DEPTH {
            leave_depth - 1
        } else {
            QUARK_HYBRID_LAYER_DEPTH
        };
        let mut layers: Vec<BatchedDenseGrandProductLayer<F>> = Vec::new();
        layers.push(BatchedDenseGrandProductLayer::new(leaves));
        let mut i: usize = 0;
        while i < num_layers
            invariant
                i <= num_layers,
                m == F::modulus(),
                rows.len() > 0,
                layers@.len() == i + 1,
                forall|d: int|
                    0 <= d <= i ==> (#[trigger] layers@[d])@ == layer_above(rows, d as nat, m),
                forall|d: int|
                    0 <= d <= i ==> (#[trigger] layers@[d]).layer_len == layers@[d]@[0].len(),
                layers@[i as int]@.len() == rows.len(),
                i < num_layers ==> forall|k: int|
                    0 <= k < rows.len() ==> 2 * (layers@[i as int].layer_len / 2) <= (
                    #[trigger] layers@[i as int]@[k]).len(),
            decreases num_layers - i,
        {
            let ghost before = layers@;
            let new_layers = multiply_neighbours(&layers[i]);
            assert(field::rows(new_layers@).len() == new_layers@.len());
            layers.push(BatchedDenseGrandProductLayer::new(new_layers));
            proof {
                assert forall|d: int| 0 <= d <= i implies layers@[d] == before[d] by {}
                let next = layers@[i + 1];
                assert(next@ == layer::next_layer(before[i as int]@, m));
                assert(next.layer_len == next@[0].len());
                assert forall|k: int| 0 <= k < rows.len() implies 2 * (next.layer_len / 2) <= (
                #[trigger] next@[k]).len() by {}
            }
            i = i + 1;
        }
        // The layers below the top one are proved layer by layer. There is always a top
        // layer: the first one at least.
        let top = layers.pop();
        let polynomials = match top {
            Some(layer) => layer.layers,
            None => Vec::new(),
        };
        let r = QuarkGrandProduct { polynomials, base_layers: layers };
        proof {
            let depth = r.depth();
            assert(r.levels() =~= tower(rows, depth, m));
            assert(r.levels()[depth as int] == r.level(depth as int));
            lemma_layer_len(rows, depth, 1, m);
            assert(1 * pow2(depth) == pow2(depth));
            if math::is_pow2(leaf_len as int) && (forall|i: int|
                0 <= i < rows.len() ==> (#[trigger] rows[i]).len() == leaf_len) {
                lemma_provable(r, rows);
            }
        }
        r
    }
}

/// Layers that are constructed from polynomials can be proved.
proof fn lemma_provable<F: JoltField>(r: QuarkGrandProduct<F>, rows: Seq<Seq<int>>)
    requires
        rows.len() > 0,
        2 <= rows[0].len() <= usize::MAX,
        math::is_pow2(rows[0].len() as int),
        forall|i: int| 0 <= i < rows.len() ==> (#[trigger] rows[i]).len() == rows[0].len(),
        r.depth() == hybrid_depth(rows[0].len() as int),
        r.levels() == tower(rows, r.depth(), F::modulus()),
        forall|d: int|
            0 <= d < r.depth() ==> (#[trigger] r.base_layers@[d]).layer_len
                == r.base_layers@[d]@[0].len(),
    ensures
        r.provable(),
        r.num_vars() + r.depth() == math::log2(rows[0].len() as int),
        quark_identity::products(r.level(r.depth() as int), F::modulus())
            == quark_identity::products(rows, F::modulus()),
{
    F::lemma_modulus();
    let m = F::modulus();
    let k = math::log2(rows[0].len() as int);
    let depth = r.depth();
    let n = (k - depth) as nat;
    math::lemma_pow2_log2(rows[0].len() as int);
    lemma_hybrid_depth(rows[0].len() as int);
    assert(poly::tables_have_vars(rows, k));
    lemma_chained(rows, n, depth, m);
    lemma_layer_above(rows, k, depth, m);
    let levels = r.levels();
    assert(level_fits(levels, n, depth as int, m));
    assert(levels[depth as int][0].len() == pow2(n));
    assert(r.level(depth as int) == levels[depth as int]);
    math::lemma_log2_pow2(n);
    assert(r.num_vars() == n);
    assert forall|d: int| 0 <= d < depth implies (#[trigger] r.base_layers@[d]).has_vars(
        (n + depth - d) as nat,
    ) by {
        assert(level_fits(levels, n, d, m));
        assert(levels[d] == r.level(d));
        assert(levels[d][0].len() == pow2((n + depth - d) as nat));
    }
    lemma2_to64();
    if depth > 0 {
        mle::lemma_halves(n + 1);
        if n + 1 < k {
            lemma_pow2_strictly_increases(n + 1, k);
        }
    }
}

impl<F: JoltField> QuarkGrandProduct<F> {
    /// The number of layers in the grand product: the log of the quark layer size plus the
    /// number of layers below it.
    pub fn num_layers(&self) -> (r: usize)
        requires
            self.well_formed(),
        ensures
            r == self.num_vars() + self.depth(),
            r == math::log2(self.level(self.depth() as int)[0].len() as int) + self.depth(),
    {
        assert(field::rows(self.polynomials@)[0].len() == self.polynomials@[0]@.len());
        let quark_layers = math::log_2(self.polynomials[0].len());
        proof {
            lemma_log2_small(self.polynomials@[0]@.len() as int);
        }
        quark_layers + self.base_layers.len()
    }

    /// The claimed outputs of the grand products.
    pub fn claims(&self) -> (r: Vec<F>)
        ensures
            field::values(r@) == quark_identity::products(
                self.level(self.depth() as int),
                F::modulus(),
            ),
            r@.len() == self.level(self.depth() as int).len(),
            forall|i: int|
                0 <= i < r@.len() ==> (#[trigger] r@[i])@ == arith::product(
                    self.level(self.depth() as int)[i],
                ) % F::modulus(),
    {
        let ghost rows = field::rows(self.polynomials@);
        let ghost want = quark_identity::products(rows, F::modulus());
        let mut r: Vec<F> = Vec::new();
        let mut i: usize = 0;
        while i < self.polynomials.len()
            invariant
                i <= self.polynomials@.len(),
                rows == field::rows(self.polynomials@),
                want == quark_identity::products(rows, F::modulus()),
                r@.len() == i,
                forall|k: int| 0 <= k < i ==> (#[trigger] r@[k])@ == want[k],
            decreases self.polynomials@.len() - i,
        {
            r.push(product_of(&self.polynomials[i]));
            i = i + 1;
        }
        assert(field::values(r@) =~= want);
        r
    }
}

/// The logarithm of a length leaves room for more.
proof fn lemma_log2_small(n: int)
    requires
        0 < n <= usize::MAX,
    ensures
        math::log2(n) <= 64,
{
    lemma2_to64();
    math::lemma_log2(n);
    if math::log2(n) > 64 {
        let k = (math::log2(n) - 1) as nat;
        if k > 64 {
            lemma_pow2_strictly_increases(64, k);
        }
    }
}

/// One more honest proof of a layer.
proof fn lemma_extend_layers<F: JoltField>(
    levels: Seq<Seq<Seq<int>>>,
    l: nat,
    proofs: Seq<BatchedGrandProductLayerProof<F>>,
    proof: BatchedGrandProductLayerProof<F>,
    r: Seq<int>,
    state: Seq<u8>,
)
    requires
        proofs.len() + 1 < levels.len(),
        forall|p: int|
            0 <= p < proofs.len() ==> (#[trigger] proofs[p]).proves(
                levels[levels.len() - 2 - p],
                layers_point(proofs.take(p), l, r, state),
                layers_state(proofs.take(p), l, state),
            ),
        proof.proves(
            levels[levels.len() - 2 - proofs.len()],
            layers_point(proofs, l, r, state),
            layers_state(proofs, l, state),
        ),
    ensures
        ({
            let next = proofs.push(proof);
            let here = layers_state(proofs, l, state);
            &&& layers_point(next, l, r, state) == proof.next_point(here, l)
            &&& layers_state(next, l, state) == proof.next_state(here, l)
            &&& forall|p: int|
                0 <= p < next.len() ==> (#[trigger] next[p]).proves(
                    levels[levels.len() - 2 - p],
                    layers_point(next.take(p), l, r, state),
                    layers_state(next.take(p), l, state),
                )
        }),
{
    let next = proofs.push(proof);
    assert(next.drop_last() =~= proofs);
    assert forall|p: int| 0 <= p < next.len() implies (#[trigger] next[p]).proves(
        levels[levels.len() - 2 - p],
        layers_point(next.take(p), l, r, state),
        layers_state(next.take(p), l, state),
    ) by {
        assert(next.take(p) =~= proofs.take(p));
        if p == proofs.len() {
            assert(proofs.take(p) =~= proofs);
        } else {
            assert(next[p] == proofs[p]);
        }
    }
}

impl<F: JoltField> QuarkGrandProduct<F> {
    /// Computes a batched grand product proof.
    ///
    /// Proves the layers on top by a quark proof, which leaves a claim on the layer that it
    /// starts from. Takes that claim down to the leaves, layer by layer. Gives the proof and
    /// the random point at which the values of the leaves are left to be verified. Binds
    /// the layers that are proved layer by layer.
    pub fn prove_grand_product<C: CommitmentScheme<Field = F>>(
        &mut self,
        transcript: &mut ProofTranscript,
        setup: Option<&C::Setup>,
    ) -> (r: (BatchedGrandProductProof<C>, Vec<F>))
        requires
            old(self).provable(),
            setup is Some,
            C::supports(*setup->0, old(self).num_vars()),
        ensures
            proves(
                old(self).levels(),
                old(self).num_vars(),
                *setup->0,
                old(transcript)@,
                r.0,
                field::values(r.1@),
                final(transcript)@,
            ),
            final(self).depth() == old(self).depth(),
            final(self).level(final(self).depth() as int) == old(self).level(
                old(self).depth() as int,
            ),
            forall|d: int|
                0 <= d < final(self).depth() ==> #[trigger] final(self).level(d)
                    == r.0.layers@[final(self).depth() - 1 - d].factors(),
    {
        let ghost levels = self.levels();
        let ghost n = self.num_vars();
        let ghost m = F::modulus();
        let ghost l = levels[0].len();
        let ghost base = self.base_layers@;
        let ghost depth = self.base_layers@.len() as int;
        let ghost top = field::rows(self.polynomials@);
        proof {
            assert(level_fits(levels, n, depth, m));
            assert(levels[depth] == top);
            math::lemma_log2_pow2(n);
            lemma2_to64();
            mle::lemma_halves(n);
            assert(top[0].len() == pow2(n));
            assert forall|i: int| 0 <= i < self.polynomials@.len() implies (
            #[trigger] self.polynomials@[i])@.len() == pow2(n) by {
                assert(top[i].len() == pow2(n));
            }
        }
        let ghost s0 = transcript@;
        let ghost su = *setup->0;
        let (quark, mut random, mut claims_to_verify) = QuarkGrandProductProof::<C>::prove(
            self.polynomials.as_slice(),
            transcript,
            setup.unwrap(),
        );
        let ghost point = field::values(random@);
        let ghost claims = field::values(claims_to_verify@);
        let ghost mid = transcript@;
        assert(quark::proves(top, n, su, s0, quark, point, claims, mid));
        assert(point.len() == n);
        let mut proof_layers: Vec<BatchedGrandProductLayerProof<C::Field>> = Vec::new();
        let mut d: usize = self.base_layers.len();
        while d > 0
            invariant
                0 <= d <= depth,
                m == F::modulus(),
                n > 0,
                l == levels[0].len(),
                depth == levels.len() - 1,
                chained(levels, n, m),
                base.len() == depth,
                self.base_layers@.len() == depth,
                self.polynomials == old(self).polynomials,
                point.len() == n,
                forall|e: int|
                    0 <= e < depth ==> (#[trigger] base[e])@ == levels[e] && base[e].has_vars(
                        (n + depth - e) as nat,
                    ),
                forall|e: int| 0 <= e < d ==> #[trigger] self.base_layers@[e] == base[e],
                forall|e: int|
                    d <= e < depth ==> (#[trigger] self.base_layers@[e])@ == proof_layers@[depth - 1
                        - e].factors(),
                proof_layers@.len() == depth - d,
                random@.len() == n + depth - d,
                field::values(random@) == layers_point(proof_layers@, l, point, mid),
                transcript@ == layers_state(proof_layers@, l, mid),
                field::values(claims_to_verify@) == poly::evals_at(
                    levels[d as int],
                    field::values(random@),
                    m,
                ),
                forall|p: int|
                    0 <= p < proof_layers@.len() ==> (#[trigger] proof_layers@[p]).proves(
                        levels[levels.len() - 2 - p],
                        layers_point(proof_layers@.take(p), l, point, mid),
                        layers_state(proof_layers@.take(p), l, mid),
                    ),
            decreases d,
        {
            d = d - 1;
            let ghost before = proof_layers@;
            let ghost bound = self.base_layers@;
            let ghost rows = levels[d as int];
            let ghost state = transcript@;
            proof {
                assert(bound[d as int] == base[d as int]);
                assert(base[d as int]@ == rows);
                assert(level_fits(levels, n, d as int, m));
            }
            let proof = self.base_layers[d].prove_layer(
                &mut claims_to_verify,
                &mut random,
                transcript,
            );
            proof_layers.push(proof);
            proof {
                assert(proof_layers@ =~= before.push(proof));
                assert(field::values(random@).len() == random@.len());
                lemma_extend_layers(levels, l, before, proof, point, mid);
                assert forall|e: int| d <= e < depth implies (#[trigger] self.base_layers@[e])@
                    == proof_layers@[depth - 1 - e].factors() by {
                    if e > d {
                        assert(self.base_layers@[e] == bound[e]);
                        assert(proof_layers@[depth - 1 - e] == before[depth - 1 - e]);
                    }
                }
            }
        }
        let r = (BatchedGrandProductProof { layers: proof_layers, quark_proof: Some(quark) }, random);
        proof {
            assert(levels.last() == top);
            assert(layers_prove(levels.drop_last(), l, proof_layers@, point, mid));
            assert(r.0.quark_proof == Some(quark));
            assert forall|d: int| 0 <= d < self.depth() implies #[trigger] self.level(d)
                == r.0.layers@[self.depth() - 1 - d].factors() by {
                assert(self.level(d) == self.base_layers@[d]@);
            }
        }
        r
    }

    /// Verifies the proofs of layers for `claims` at the point `r_start`.
    ///
    /// Gives the claims on the bottom layer, and the point at which they are claimed.
    pub fn verify_layers(
        proof_layers: &Vec<BatchedGrandProductLayerProof<F>>,
        claims: Vec<F>,
        transcript: &mut ProofTranscript,
        r_start: Vec<F>,
    ) -> (r: Result<(Vec<F>, Vec<F>), GrandProductError>)
        ensures
            (field::answer(r), final(transcript)@) == layers_verdict(
                proof_layers@,
                field::values(claims@),
                field::values(r_start@),
                old(transcript)@,
            ),
    {
        let ghost c0 = field::values(claims@);
        let ghost r0 = field::values(r_start@);
        let ghost s0 = transcript@;
        let mut claims_to_verify = claims;
        let mut r_grand_product = r_start;
        let mut i: usize = 0;
        assert(proof_layers@.take(0) =~= Seq::<BatchedGrandProductLayerProof<F>>::empty());
        while i < proof_layers.len()
            invariant
                i <= proof_layers@.len(),
                c0 == field::values(claims@),
                r0 == field::values(r_start@),
                s0 == old(transcript)@,
                layers_verdict(proof_layers@.take(i as int), c0, r0, s0) == (
                    Ok::<(Seq<int>, Seq<int>), GrandProductError>(
                        (field::values(claims_to_verify@), field::values(r_grand_product@)),
                    ),
                    transcript@,
                ),
            decreases proof_layers@.len() - i,
        {
            assert(proof_layers@.take(i + 1).drop_last() =~= proof_layers@.take(i as int));
            let ghost here = proof_layers@[i as int].verdict(
                field::values(claims_to_verify@),
                field::values(r_grand_product@),
                transcript@,
            );
            assert(proof_layers@.take(i + 1).last() == proof_layers@[i as int]);
            assert(layers_verdict(proof_layers@.take(i + 1), c0, r0, s0) == here);
            match proof_layers[i].verify(&claims_to_verify, &r_grand_product, transcript) {
                Ok((claims, r)) => {
                    claims_to_verify = claims;
                    r_grand_product = r;
                },
                Err(e) => {
                    proof {
                        assert(here == (
                            Err::<(Seq<int>, Seq<int>), GrandProductError>(e),
                            transcript@,
                        ));
                        lemma_first_error(proof_layers@, i + 1, c0, r0, s0);
                    }
                    return Err(e);
                },
            }
            i = i + 1;
        }
        assert(proof_layers@.take(proof_layers@.len() as int) =~= proof_layers@);
        Ok((claims_to_verify, r_grand_product))
    }

    /// Verifies the given grand product proof.
    ///
    /// Gives the claims on the leaves, and the point at which they are claimed.
    pub fn verify_grand_product<C: CommitmentScheme<Field = F>>(
        proof: &BatchedGrandProductProof<C>,
        claims: &Vec<F>,
        transcript: &mut ProofTranscript,
        setup: Option<&C::Setup>,
    ) -> (r: Result<(Vec<F>, Vec<F>), GrandProductError>)
        ensures
            (field::answer(r), final(transcript)@) == verdict(
                *proof,
                field::values(claims@),
                (match setup {
                    Some(setup) => Some(*setup),
                    None => None,
                }),
                old(transcript)@,
            ),
    {
        let (v_points, rand) = match &proof.quark_proof {
            Some(quark) => {
                let setup = match setup {
                    Some(setup) => setup,
                    None => {
                        return Err(GrandProductError::MissingSetup);
                    },
                };
                // The quark proof fixes the first coordinates of the random point.
                match quark.verify(claims.as_slice(), transcript, quark.num_vars, setup) {
                    Ok((v_points, rand)) => (v_points, rand),
                    Err(e) => {
                        return Err(GrandProductError::Quark(e));
                    },
                }
            },
            None => {
                // Otherwise the claims themselves are verified, and no coordinate is fixed.
                let rand: Vec<F> = Vec::new();
                assert(field::values(rand@) =~= Seq::<int>::empty());
                (field::copy_of(claims.as_slice()), rand)
            },
        };
        Self::verify_layers(&proof.layers, v_points, transcript, rand)
    }
}

/// The product of all entries is the same in every layer.
pub proof fn lemma_chained_products(levels: Seq<Seq<Seq<int>>>, n: nat, d: int, m: int)
    requires
        m > 0,
        chained(levels, n, m),
        0 <= d < levels.len(),
    ensures
        quark_identity::products(levels[d], m) == quark_identity::products(levels[0], m),
    decreases d,
{
    if d > 0 {
        lemma_chained_products(levels, n, d - 1, m);
        assert(level_fits(levels, n, d - 1, m));
        lemma_next_layer_products(levels[d - 1], (n + levels.len() - 1 - d) as nat, m);
    }
}

/// The first `p` honest proofs of layers are accepted, and take true claims on the top
/// layer to true claims `p` layers below it.
pub proof fn lemma_layers_completeness<F: JoltField>(
    levels: Seq<Seq<Seq<int>>>,
    n: nat,
    proofs: Seq<BatchedGrandProductLayerProof<F>>,
    r: Seq<int>,
    state: Seq<u8>,
    p: int,
)
    requires
        chained(levels, n, F::modulus()),
        r.len() == n,
        layers_prove(levels.drop_last(), levels[0].len(), proofs, r, state),
        0 <= p <= proofs.len(),
    ensures
        ({
            let m = F::modulus();
            let l = levels[0].len();
            let point = layers_point(proofs.take(p), l, r, state);
            &&& point.len() == n + p
            &&& layers_verdict(
                proofs.take(p),
                poly::evals_at(levels.last(), r, m),
                r,
                state,
            ) == (
                Ok::<(Seq<int>, Seq<int>), GrandProductError>(
                    (poly::evals_at(levels[levels.len() - 1 - p], point, m), point),
                ),
                layers_state(proofs.take(p), l, state),
            )
        }),
    decreases p,
{
    if p > 0 {
        let m = F::modulus();
        let l = levels[0].len();
        lemma_layers_completeness(levels, n, proofs, r, state, p - 1);
        assert(proofs.take(p).drop_last() =~= proofs.take(p - 1));
        let proof = proofs[p - 1];
        let point = layers_point(proofs.take(p - 1), l, r, state);
        let here = layers_state(proofs.take(p - 1), l, state);
        let below = levels.len() - 1 - p;
        assert(level_fits(levels, n, below, m));
        let base = levels.drop_last();
        assert(base[base.len() - 1 - (p - 1)] == levels[below]);
        assert(proof.proves(levels[below], point, here));
        layer::lemma_layer_completeness(
            proof,
            levels[below],
            poly::evals_at(levels[below + 1], point, m),
            point,
            here,
        );
    }
}

/// The prover makes a quark proof of the top layer, for its number of variables, and one proof
/// for each layer below it.
pub proof fn lemma_prover<C: CommitmentScheme>(
    levels: Seq<Seq<Seq<int>>>,
    n: nat,
    setup: C::Setup,
    state: Seq<u8>,
    proof: BatchedGrandProductProof<C>,
    r: Seq<int>,
    end: Seq<u8>,
)
    requires
        levels.len() > 0,
        proves(levels, n, setup, state, proof, r, end),
    ensures
        proof.layers@.len() == levels.len() - 1,
        proof.quark_proof matches Some(q) && q.num_vars == n && exists|
            point: Seq<int>,
            claims: Seq<int>,
            mid: Seq<u8>,
        | #[trigger]
            quark::proves(levels[levels.len() - 1], n, setup, state, q, point, claims, mid),
{
    reveal(quark::proves);
}

/// A proof of a batch of grand products is accepted if the prover made it, for the
/// products of the leaves.
///
/// The verifier hands on the same point as the prover, with the values of the leaves at
/// that point, and leaves the transcript in the same state.
pub proof fn lemma_hybrid_completeness<C: CommitmentScheme>(
    levels: Seq<Seq<Seq<int>>>,
    n: nat,
    setup: C::Setup,
    state: Seq<u8>,
    proof: BatchedGrandProductProof<C>,
    r: Seq<int>,
    end: Seq<u8>,
)
    requires
        commitment::accepts_own_openings::<C>(),
        C::supports(setup, n),
        n > 0,
        chained(levels, n, C::Field::modulus()),
        proves(levels, n, setup, state, proof, r, end),
    ensures
        verdict(
            proof,
            quark_identity::products(levels[0], C::Field::modulus()),
            Some(setup),
            state,
        ) == (
            Ok::<(Seq<int>, Seq<int>), GrandProductError>(
                (poly::evals_at(levels[0], r, C::Field::modulus()), r),
            ),
            end,
        ),
        r.len() == n + levels.len() - 1,
{
    C::Field::lemma_modulus();
    let m = C::Field::modulus();
    let l = levels[0].len();
    let (q, point, claims, mid) = choose|
        q: QuarkGrandProductProof<C>,
        point: Seq<int>,
        claims: Seq<int>,
        mid: Seq<u8>,
    |
        {
            &&& proof.quark_proof == Some(q)
            &&& #[trigger] quark::proves(levels.last(), n, setup, state, q, point, claims, mid)
            &&& layers_prove(levels.drop_last(), l, proof.layers@, point, mid)
            &&& r == layers_point(proof.layers@, l, point, mid)
            &&& end == layers_state(proof.layers@, l, mid)
        };
    assert(level_fits(levels, n, levels.len() - 1, m));
    lemma_chained_products(levels, n, levels.len() - 1, m);
    completeness::lemma_quark_completeness(
        levels.last(),
        n,
        setup,
        state,
        q,
        point,
        claims,
        mid,
    );
    let proofs = proof.layers@;
    lemma_layers_completeness(levels, n, proofs, point, mid, proofs.len() as int);
    assert(proofs.take(proofs.len() as int) =~= proofs);
}

/// A proof for the circuits that are constructed from leaves is accepted for the products
/// of these leaves, and what is left to be checked are the values of the leaves at the
/// point that prover and verifier hand on.
///
/// There are two to the power `k` leaves for each grand product.
pub proof fn lemma_leaves_completeness<C: CommitmentScheme>(
    leaves: Seq<Seq<int>>,
    k: nat,
    setup: C::Setup,
    state: Seq<u8>,
    proof: BatchedGrandProductProof<C>,
    r: Seq<int>,
    end: Seq<u8>,
)
    requires
        commitment::accepts_own_openings::<C>(),
        k > 0,
        leaves.len() > 0,
        poly::tables_have_vars(leaves, k),
        C::supports(setup, (k - hybrid_depth(pow2(k) as int)) as nat),
        proves(
            tower(leaves, hybrid_depth(pow2(k) as int), C::Field::modulus()),
            (k - hybrid_depth(pow2(k) as int)) as nat,
            setup,
            state,
            proof,
            r,
            end,
        ),
    ensures
        verdict(
            proof,
            quark_identity::products(leaves, C::Field::modulus()),
            Some(setup),
            state,
        ) == (
            Ok::<(Seq<int>, Seq<int>), GrandProductError>(
                (poly::evals_at(leaves, r, C::Field::modulus()), r),
            ),
            end,
        ),
        r.len() == k,
{
    C::Field::lemma_modulus();
    let m = C::Field::modulus();
    let d = hybrid_depth(pow2(k) as int);
    mle::lemma_halves(k);
    math::lemma_log2_pow2(k);
    lemma_hybrid_depth(pow2(k) as int);
    let n = (k - d) as nat;
    lemma_chained(leaves, n, d, m);
    assert(tower(leaves, d, m)[0] == leaves);
    lemma_hybrid_completeness(tower(leaves, d, m), n, setup, state, proof, r, end);
}

/// A layer and all layers above it up to `d` steps: the next one is made of the last.
pub proof fn lemma_tower(rows: Seq<Seq<int>>, d: nat, m: int)
    ensures
        tower(rows, 0, m) == seq![rows],
        tower(rows, d + 1, m) == tower(rows, d, m).push(
            layer::next_layer(tower(rows, d, m).last(), m),
        ),
{
    assert(tower(rows, 0, m) =~= seq![rows]);
    assert(tower(rows, d + 1, m) =~= tower(rows, d, m).push(
        layer::next_layer(tower(rows, d, m).last(), m),
    ));
}

/// Proofs of layers are verified in turn: one more is verified for what those before it hand
/// on, unless one of these is refused. Without any, the claims and the point are handed on.
pub proof fn lemma_layers_in_turn<F: JoltField>(
    proofs: Seq<BatchedGrandProductLayerProof<F>>,
    last: BatchedGrandProductLayerProof<F>,
    claims: Seq<int>,
    r: Seq<int>,
    state: Seq<u8>,
)
    ensures
        layers_verdict(Seq::<BatchedGrandProductLayerProof<F>>::empty(), claims, r, state) == (
            Ok::<(Seq<int>, Seq<int>), GrandProductError>((claims, r)),
            state,
        ),
        layers_verdict(proofs.push(last), claims, r, state) == match layers_verdict(
            proofs,
            claims,
            r,
            state,
        ) {
            (Err(e), s) => (Err(e), s),
            (Ok((c, p)), s) => last.verdict(c, p, s),
        },
{
    assert(proofs.push(last).drop_last() =~= proofs);
}

/// What one more proof of a layer adds: the verifier answers as it did without it if that was
/// an error. Otherwise it verifies the last proof for the claims, at the point and in the
/// state that it had come to.
pub proof fn lemma_one_more_layer<C: CommitmentScheme>(
    less: BatchedGrandProductProof<C>,
    last: BatchedGrandProductLayerProof<C::Field>,
    more: BatchedGrandProductProof<C>,
    claims: Seq<int>,
    setup: Option<C::Setup>,
    state: Seq<u8>,
)
    requires
        more.quark_proof == less.quark_proof,
        more.layers@ == less.layers@.push(last),
    ensures
        verdict(more, claims, setup, state) == match verdict(less, claims, setup, state) {
            (Err(e), s) => (Err(e), s),
            (Ok((c, p)), s) => last.verdict(c, p, s),
        },
{
    assert(more.layers@.drop_last() =~= less.layers@);
}

/// What the verifier answers if there are no proofs of layers. Without a quark proof, it hands
/// on the claims and a point without coordinates. A quark proof needs a setup, and is
/// verified for the claims and the number of variables that it holds.
pub proof fn lemma_no_layers<C: CommitmentScheme>(
    proof: BatchedGrandProductProof<C>,
    claims: Seq<int>,
    setup: C::Setup,
    state: Seq<u8>,
)
    requires
        proof.layers@.len() == 0,
    ensures
        proof.quark_proof is None ==> forall|setup: Option<C::Setup>|
            #![trigger verdict(proof, claims, setup, state)]
            verdict(proof, claims, setup, state) == (
                Ok::<(Seq<int>, Seq<int>), GrandProductError>((claims, Seq::<int>::empty())),
                state,
            ),
        proof.quark_proof matches Some(q) ==> {
            let answer = quark::verdict(q, claims, q.num_vars as nat, setup, state);
            &&& verdict(proof, claims, Some(setup), state).1 == answer.1
            &&& verdict(proof, claims, Some(setup), state).0 == match answer.0 {
                Ok(r) => Ok(r),
                Err(e) => Err(GrandProductError::Quark(e)),
            }
        },
{
}

/// A quark proof without a setup is refused, and the transcript is left as it was.
pub proof fn lemma_missing_setup<C: CommitmentScheme>(
    proof: BatchedGrandProductProof<C>,
    claims: Seq<int>,
    state: Seq<u8>,
)
    requires
        proof.quark_proof is Some,
    ensures
        verdict(proof, claims, None, state) == (
            Err::<(Seq<int>, Seq<int>), GrandProductError>(GrandProductError::MissingSetup),
            state,
        ),
{
}

/// If a proof is accepted, then so is every proof of a layer in it, in turn: the proof of the
/// layer `p` for the claims, at the point and in the state that the proofs before it led to.
/// The point has one coordinate more after each layer.
pub proof fn lemma_every_layer_accepted<F: JoltField>(
    proofs: Seq<BatchedGrandProductLayerProof<F>>,
    claims: Seq<int>,
    r: Seq<int>,
    state: Seq<u8>,
    p: int,
)
    requires
        0 <= p < proofs.len(),
        layers_verdict(proofs, claims, r, state).0 is Ok,
    ensures
        layers_verdict(proofs.take(p), claims, r, state).0 matches Ok((c, q)) && ({
            let s = layers_verdict(proofs.take(p), claims, r, state).1;
            &&& proofs[p].verdict(c, q, s).0 is Ok
            &&& layers_verdict(proofs.take(p + 1), claims, r, state) == proofs[p].verdict(c, q, s)
            &&& q.len() == r.len() + p
            &&& c.len() == claims.len()
        }),
    decreases proofs.len(),
{
    if p + 1 < proofs.len() {
        lemma_every_layer_accepted(proofs.drop_last(), claims, r, state, p);
        assert(proofs.drop_last().take(p) =~= proofs.take(p));
        assert(proofs.drop_last().take(p + 1) =~= proofs.take(p + 1));
    } else {
        assert(proofs.take(p) =~= proofs.drop_last());
        assert(proofs.take(p + 1) =~= proofs);
        if p > 0 {
            lemma_every_layer_accepted(proofs.drop_last(), claims, r, state, p - 1);
            assert(proofs.drop_last().take(p) =~= proofs.drop_last());
        }
    }
}

/// An accepted proof hands on as many claims as it was given, at a point with one coordinate
/// more for each layer.
pub proof fn lemma_handed_on<F: JoltField>(
    proofs: Seq<BatchedGrandProductLayerProof<F>>,
    claims: Seq<int>,
    r: Seq<int>,
    state: Seq<u8>,
)
    requires
        layers_verdict(proofs, claims, r, state).0 is Ok,
    ensures
        layers_verdict(proofs, claims, r, state).0 matches Ok((c, q)) && c.len() == claims.len()
            && q.len() == r.len() + proofs.len(),
{
    if proofs.len() > 0 {
        let k = proofs.len() - 1;
        lemma_every_layer_accepted(proofs, claims, r, state, k);
        assert(proofs.take(k + 1) =~= proofs);
        let before = layers_verdict(proofs.take(k), claims, r, state);
        let (c, q) = before.0->Ok_0;
        let next = proofs[k].next_claims(before.1, c.len());
        assert(proofs[k].left_claims@.len() == field::values(proofs[k].left_claims@).len());
        assert(proofs[k].right_claims@.len() == field::values(proofs[k].right_claims@).len());
        assert(next.len() == c.len());
    }
}

/// The layer without variables above two to the power `k` leaves holds their products.
pub proof fn lemma_top_products(leaves: Seq<Seq<int>>, k: nat, m: int)
    requires
        m > 0,
        leaves.len() > 0,
        poly::tables_have_vars(leaves, k),
    ensures
        poly::evals_at(tower(leaves, k, m).last(), Seq::empty(), m) == quark_identity::products(
            leaves,
            m,
        ),
{
    let levels = tower(leaves, k, m);
    let r = Seq::<int>::empty();
    lemma_chained(leaves, 0, k, m);
    assert(levels[0] == leaves);
    lemma_chained_products(levels, 0, k as int, m);
    assert(level_fits(levels, 0, k as int, m));
    lemma2_to64();
    let top = levels.last();
    let a = poly::evals_at(top, r, m);
    let b = quark_identity::products(top, m);
    assert forall|i: int| 0 <= i < top.len() implies a[i] == b[i] by {
        assert(top[i].len() == 1);
        assert(top[i].drop_last() =~= Seq::<int>::empty());
        assert(arith::product(top[i].drop_last()) == 1);
        assert(1 * top[i].last() == top[i][0]);
    }
    assert(a =~= b);
}

/// Without a quark proof, the proofs that the prover makes of all layers above two to the
/// power `k` leaves are accepted for the products of the leaves, whatever the setup. The
/// point that is handed on has `k` coordinates, and the claims are the values of the leaves
/// there.
pub proof fn lemma_layers_alone_completeness<C: CommitmentScheme>(
    leaves: Seq<Seq<int>>,
    k: nat,
    setup: Option<C::Setup>,
    state: Seq<u8>,
    proof: BatchedGrandProductProof<C>,
)
    requires
        leaves.len() > 0,
        poly::tables_have_vars(leaves, k),
        proof.quark_proof is None,
        layers_prove(
            tower(leaves, k, C::Field::modulus()).drop_last(),
            leaves.len(),
            proof.layers@,
            Seq::empty(),
            state,
        ),
    ensures
        verdict(
            proof,
            quark_identity::products(leaves, C::Field::modulus()),
            setup,
            state,
        ).0 matches Ok((claims, point)) && ({
            &&& point.len() == k
            &&& claims == poly::evals_at(leaves, point, C::Field::modulus())
        }),
{
    C::Field::lemma_modulus();
    let m = C::Field::modulus();
    let levels = tower(leaves, k, m);
    let proofs = proof.layers@;
    let r = Seq::<int>::empty();
    lemma_chained(leaves, 0, k, m);
    assert(levels[0] == leaves);
    lemma_top_products(leaves, k, m);
    lemma_layers_completeness(levels, 0, proofs, r, state, k as int);
    assert(proofs.take(k as int) =~= proofs);
}

} // verus!
