use ark_ff::PrimeField;
use ark_std::UniformRand;
use quark_grand_product::errors::{GrandProductError, QuarkError};
use quark_grand_product::field::JoltField;
use quark_grand_product::fr::Fr;
use quark_grand_product::grand_product::{BatchedGrandProductProof, QuarkGrandProduct};
use quark_grand_product::layer::BatchedDenseGrandProductLayer;
use quark_grand_product::plain::PlainScheme;
use quark_grand_product::poly::{evaluate_all, DensePolynomial};
use quark_grand_product::quark::QuarkGrandProductProof;
use quark_grand_product::transcript::ProofTranscript;
use rand_core::SeedableRng;

type Scheme = PlainScheme<Fr>;

fn fr(x: u64) -> Fr {
    Fr::from_limbs([x, 0, 0, 0]).unwrap()
}

fn from_ark(x: ark_bn254::Fr) -> Fr {
    Fr::from_limbs(x.into_bigint().0).unwrap()
}

/// Random leaves and their products, computed with the field of `ark_bn254`.
fn random_leaves(layer_size: usize, batch: usize) -> (Vec<Vec<Fr>>, Vec<Fr>) {
    let mut rng = rand_chacha::ChaCha20Rng::seed_from_u64(9_u64);
    let mut leaves = Vec::new();
    let mut products = Vec::new();
    for _ in 0..batch {
        let row: Vec<ark_bn254::Fr> = std::iter::repeat_with(|| ark_bn254::Fr::rand(&mut rng))
            .take(layer_size)
            .collect();
        products.push(from_ark(row.iter().product()));
        leaves.push(row.into_iter().map(from_ark).collect());
    }
    (leaves, products)
}

/// The values of the leaves at a point.
fn values_at(leaves: &[Vec<Fr>], point: &[Fr]) -> Vec<Fr> {
    let polys: Vec<DensePolynomial<Fr>> =
        leaves.iter().map(|row| DensePolynomial::new(row.clone())).collect();
    evaluate_all(&polys, point)
}

#[test]
fn quark_e2e() {
    const LAYER_SIZE: usize = 1 << 8;

    let (v, known_products) = random_leaves(LAYER_SIZE, 2);
    let mut transcript: ProofTranscript = ProofTranscript::new("test_transcript");
    let setup: usize = 9;

    let (proof, _, _) = QuarkGrandProductProof::<Scheme>::prove(&v, &mut transcript, &setup);

    // Note resetting the transcript is important
    transcript = ProofTranscript::new("test_transcript");
    let result = proof.verify(&known_products, &mut transcript, 8, &setup);

    assert!(result.is_ok(), "Proof did not verify");
}

#[test]
fn quark_hybrid_e2e() {
    const LAYER_SIZE: usize = 1 << 8;

    let (v, known_products) = random_leaves(LAYER_SIZE, 2);
    let mut transcript: ProofTranscript = ProofTranscript::new("test_transcript");
    let setup: usize = 9;

    let mut hybrid_grand_product = QuarkGrandProduct::construct(v);
    let proof: BatchedGrandProductProof<Scheme> = hybrid_grand_product
        .prove_grand_product(&mut transcript, Some(&setup))
        .0;

    // Note resetting the transcript is important
    transcript = ProofTranscript::new("test_transcript");
    let result = QuarkGrandProduct::verify_grand_product(
        &proof,
        &known_products,
        &mut transcript,
        Some(&setup),
    );
    assert!(result.is_ok(), "Proof did not verify");
}

#[test]
fn quark_verifier_agrees_with_prover() {
    for log in 1..6_usize {
        let (v, products) = random_leaves(1 << log, 3);
        let mut prover = ProofTranscript::new("agree");
        let (proof, r_t, h_r_t) =
            QuarkGrandProductProof::<Scheme>::prove(&v, &mut prover, &log);
        assert_eq!(proof.num_vars, log);
        assert_eq!(r_t.len(), log);
        assert_eq!(h_r_t, values_at(&v, &r_t));

        let mut verifier = ProofTranscript::new("agree");
        let (claims, point) = proof.verify(&products, &mut verifier, log, &log).unwrap();
        assert_eq!(claims, h_r_t);
        assert_eq!(point, r_t);
        let next: Fr = prover.challenge_scalar("next");
        assert_eq!(next, verifier.challenge_scalar("next"));
    }
}

fn small_quark_proof() -> (QuarkGrandProductProof<Scheme>, Vec<Fr>) {
    let (v, products) = random_leaves(8, 2);
    let mut transcript = ProofTranscript::new("small");
    let (proof, _, _) = QuarkGrandProductProof::<Scheme>::prove(&v, &mut transcript, &3);
    (proof, products)
}

fn verify_small(
    proof: &QuarkGrandProductProof<Scheme>,
    products: &[Fr],
    n_rounds: usize,
) -> Result<(Vec<Fr>, Vec<Fr>), QuarkError> {
    proof.verify(products, &mut ProofTranscript::new("small"), n_rounds, &3)
}

#[test]
fn quark_sumcheck_of_wrong_shape_is_refused() {
    let (mut proof, products) = small_quark_proof();
    assert!(verify_small(&proof, &products, 3).is_ok());
    assert_eq!(verify_small(&proof, &products, 2), Err(QuarkError::InvalidQuarkSumcheck));
    assert_eq!(verify_small(&proof, &products, 0), Err(QuarkError::InvalidQuarkSumcheck));
    proof.sumcheck_proof.compressed_polys[1].coeffs_except_linear_term.pop();
    assert_eq!(verify_small(&proof, &products, 3), Err(QuarkError::InvalidQuarkSumcheck));
    proof.sumcheck_proof.compressed_polys.pop();
    assert_eq!(verify_small(&proof, &products, 3), Err(QuarkError::InvalidQuarkSumcheck));
    proof.sumcheck_proof.compressed_polys.clear();
    assert_eq!(verify_small(&proof, &products, 0), Err(QuarkError::InvalidQuarkSumcheck));
}

#[test]
fn quark_wrong_openings_are_refused() {
    let (mut proof, products) = small_quark_proof();
    let right = proof.claimed_eval_g_r.0[1];
    proof.claimed_eval_g_r.0[1] = right.add(&fr(1));
    assert_eq!(verify_small(&proof, &products, 3), Err(QuarkError::InvalidOpeningProof));
    proof.claimed_eval_g_r.0[1] = right;
    assert!(verify_small(&proof, &products, 3).is_ok());
    proof.claimed_eval_g_r_x.1[0] = proof.claimed_eval_g_r_x.1[0].add(&fr(1));
    assert_eq!(verify_small(&proof, &products, 3), Err(QuarkError::InvalidOpeningProof));
}

#[test]
fn quark_wrong_binding_is_refused() {
    let (mut proof, products) = small_quark_proof();
    let right = proof.helper_values.0[0];
    proof.helper_values.0[0] = right.add(&fr(1));
    assert_eq!(verify_small(&proof, &products, 3), Err(QuarkError::InvalidBinding));
    proof.helper_values.0[0] = right;
    assert!(verify_small(&proof, &products, 3).is_ok());
    proof.helper_values.1.pop();
    assert_eq!(verify_small(&proof, &products, 3), Err(QuarkError::InvalidBinding));
}

#[test]
fn quark_wrong_claim_is_refused() {
    let (proof, mut products) = small_quark_proof();
    products[0] = products[0].add(&fr(1));
    assert!(verify_small(&proof, &products, 3).is_err());
}

#[test]
fn quark_error_texts() {
    assert_eq!(QuarkError::InvalidQuarkSumcheck.message(), "InvalidSumcheck");
    assert_eq!(QuarkError::InvalidOpeningProof.message(), "IvalidOpeningProof");
    assert_eq!(QuarkError::InvalidBinding.message(), "IvalidOpeningProof");
}

#[test]
fn constructed_claims_are_the_products() {
    for log in 1..8_usize {
        let (v, products) = random_leaves(1 << log, 2);
        let circuit = QuarkGrandProduct::construct(v);
        assert_eq!(circuit.claims(), products);
        assert_eq!(circuit.num_layers(), log);
    }
}

#[test]
fn construct_drops_odd_leaves() {
    // Six leaves make layers of three and of one entry.
    let row: Vec<Fr> = [2, 3, 5, 7, 11, 13].iter().map(|x| fr(*x)).collect();
    let longer: Vec<Fr> = [1, 2, 3, 4, 5, 6, 7, 8].iter().map(|x| fr(*x)).collect();
    let circuit = QuarkGrandProduct::construct(vec![row, longer]);
    assert_eq!(circuit.claims(), vec![fr(210), fr(24)]);
    assert_eq!(circuit.num_layers(), 2);
    // With two leaves there is no layer below the quark layer, and no leaf is dropped.
    let circuit = QuarkGrandProduct::construct(vec![vec![fr(2), fr(3)], vec![fr(5)]]);
    assert_eq!(circuit.claims(), vec![fr(6), fr(5)]);
    assert_eq!(circuit.num_layers(), 1);
}

#[test]
fn hybrid_verifier_agrees_with_prover() {
    for log in 1..7_usize {
        let (v, products) = random_leaves(1 << log, 2);
        let mut circuit = QuarkGrandProduct::construct(v.clone());
        let mut prover = ProofTranscript::new("agree");
        let (proof, r): (BatchedGrandProductProof<Scheme>, Vec<Fr>) =
            circuit.prove_grand_product(&mut prover, Some(&log));
        assert_eq!(proof.layers.len(), if log <= 3 { log - 1 } else { 3 });
        assert_eq!(r.len(), log);
        // The layer of the quark proof is left as it was.
        assert_eq!(circuit.claims(), products);

        let mut verifier = ProofTranscript::new("agree");
        let (claims, point) =
            QuarkGrandProduct::verify_grand_product(&proof, &products, &mut verifier, Some(&log))
                .unwrap();
        assert_eq!(point, r);
        assert_eq!(claims, values_at(&v, &r));
        let next: Fr = prover.challenge_scalar("next");
        assert_eq!(next, verifier.challenge_scalar("next"));
    }
}

fn small_hybrid_proof() -> (BatchedGrandProductProof<Scheme>, Vec<Fr>) {
    let (v, products) = random_leaves(16, 2);
    let mut circuit = QuarkGrandProduct::construct(v);
    let (proof, _) =
        circuit.prove_grand_product::<Scheme>(&mut ProofTranscript::new("small"), Some(&4));
    (proof, products)
}

fn verify_hybrid(
    proof: &BatchedGrandProductProof<Scheme>,
    products: &Vec<Fr>,
    setup: Option<&usize>,
) -> Result<(Vec<Fr>, Vec<Fr>), GrandProductError> {
    QuarkGrandProduct::verify_grand_product(
        proof,
        products,
        &mut ProofTranscript::new("small"),
        setup,
    )
}

#[test]
fn hybrid_setup_is_needed() {
    let (proof, products) = small_hybrid_proof();
    assert_eq!(
        verify_hybrid(&proof, &products, None),
        Err(GrandProductError::MissingSetup)
    );
    assert!(verify_hybrid(&proof, &products, Some(&4)).is_ok());
}

#[test]
fn hybrid_quark_error_is_handed_on() {
    let (mut proof, products) = small_hybrid_proof();
    let mut quark = proof.quark_proof.take().unwrap();
    quark.helper_values.0[0] = quark.helper_values.0[0].add(&fr(1));
    proof.quark_proof = Some(quark);
    assert_eq!(
        verify_hybrid(&proof, &products, Some(&4)),
        Err(GrandProductError::Quark(QuarkError::InvalidBinding))
    );
}

#[test]
fn hybrid_wrong_layers_are_refused() {
    let (mut proof, products) = small_hybrid_proof();
    let right = proof.layers[1].left_claims[0];
    proof.layers[1].left_claims[0] = right.add(&fr(1));
    assert_eq!(
        verify_hybrid(&proof, &products, Some(&4)),
        Err(GrandProductError::InvalidLayerBinding)
    );
    proof.layers[1].left_claims[0] = right;
    proof.layers[1].left_claims.push(right);
    assert_eq!(
        verify_hybrid(&proof, &products, Some(&4)),
        Err(GrandProductError::InvalidLayerClaims)
    );
    proof.layers[1].left_claims.pop();
    assert!(verify_hybrid(&proof, &products, Some(&4)).is_ok());
    proof.layers[2].proof.compressed_polys.pop();
    assert_eq!(
        verify_hybrid(&proof, &products, Some(&4)),
        Err(GrandProductError::InvalidLayerSumcheck)
    );
}

#[test]
fn layers_alone_can_be_verified() {
    // The product 3 * 5 from its factors, without a quark proof.
    let mut layer = BatchedDenseGrandProductLayer::new(vec![vec![fr(3), fr(5)]]);
    let mut claims = vec![fr(15)];
    let mut r: Vec<Fr> = Vec::new();
    let layer_proof = layer.prove_layer(&mut claims, &mut r, &mut ProofTranscript::new("small"));
    assert_eq!(layer_proof.left_claims, vec![fr(3)]);
    assert_eq!(layer_proof.right_claims, vec![fr(5)]);
    assert_eq!(claims, vec![fr(3).add(&r[0].mul(&fr(2)))]);
    assert_eq!(layer.layers, vec![vec![fr(3), fr(5)]]);
    assert_eq!(layer.layer_len, 2);

    let proof: BatchedGrandProductProof<Scheme> =
        BatchedGrandProductProof { layers: vec![layer_proof], quark_proof: None };
    assert_eq!(verify_hybrid(&proof, &vec![fr(15)], None), Ok((claims, r)));
    assert_eq!(
        verify_hybrid(&proof, &vec![fr(16)], None),
        Err(GrandProductError::InvalidLayerBinding)
    );

    let none: BatchedGrandProductProof<Scheme> =
        BatchedGrandProductProof { layers: Vec::new(), quark_proof: None };
    assert_eq!(verify_hybrid(&none, &vec![fr(16)], None), Ok((vec![fr(16)], Vec::new())));
}

#[test]
fn proving_a_layer_binds_it() {
    let (rows, _) = random_leaves(8, 2);
    let above: Vec<Vec<Fr>> = rows
        .iter()
        .map(|row| (0..4).map(|i| row[2 * i].mul(&row[2 * i + 1])).collect())
        .collect();
    let mut r = vec![fr(10), fr(20)];
    let mut claims = values_at(&above, &r);
    let mut layer = BatchedDenseGrandProductLayer::new(rows.clone());
    let before = (claims.clone(), r.clone());
    let proof = layer.prove_layer(&mut claims, &mut r, &mut ProofTranscript::new("small"));
    assert_eq!(layer.layer_len, 2);
    for i in 0..2 {
        assert_eq!(layer.layers[i], vec![proof.left_claims[i], proof.right_claims[i]]);
    }
    assert_eq!(r.len(), 3);
    assert_eq!(claims, values_at(&rows, &r));
    let answer = proof.verify(&before.0, &before.1, &mut ProofTranscript::new("small"));
    assert_eq!(answer, Ok((claims, r)));
}
