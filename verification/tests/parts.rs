use ark_ff::PrimeField;
use ark_std::UniformRand;
use quark_grand_product::combination::{
    combine, layer_value, term_value, LayerCombination, QuarkCombination,
};
use quark_grand_product::commitment::{BatchType, CommitmentScheme};
use quark_grand_product::errors::{ProofVerifyError, QuarkError};
use quark_grand_product::field::{copy_of, JoltField};
use quark_grand_product::fr::Fr;
use quark_grand_product::line_reduction::{
    line_reduce, line_reduce_opening_verify, line_reduce_verify, open_and_prove,
};
use quark_grand_product::math::log_2;
use quark_grand_product::plain::PlainScheme;
use quark_grand_product::poly::{evaluate_all, DensePolynomial, EqPolynomial};
use quark_grand_product::product_table::v_into_f;
use quark_grand_product::sumcheck::{Combination, SumcheckInstanceProof};
use quark_grand_product::transcript::ProofTranscript;
use rand_core::SeedableRng;
use sha3::Digest;

type Scheme = PlainScheme<Fr>;

fn fr(x: u64) -> Fr {
    Fr::from_limbs([x, 0, 0, 0]).unwrap()
}

fn neg(x: u64) -> Fr {
    fr(0).sub(&fr(x))
}

fn frs(x: &[u64]) -> Vec<Fr> {
    x.iter().map(|v| fr(*v)).collect()
}

fn from_ark(x: ark_bn254::Fr) -> Fr {
    Fr::from_limbs(x.into_bigint().0).unwrap()
}

#[test]
fn field_operations() {
    let order = [0x43e1f593f0000001, 0x2833e84879b97091, 0xb85045b68181585d, 0x30644e72e131a029];
    assert_eq!(Fr::from_limbs(order), None);
    let minus_one = Fr::from_limbs([order[0] - 1, order[1], order[2], order[3]]).unwrap();
    assert_eq!(minus_one.add(&fr(3)), fr(2));
    assert_eq!(fr(0).sub(&fr(1)), minus_one);
    assert_eq!(minus_one.mul(&minus_one), fr(1));
    assert_eq!(fr(6).mul(&fr(7)), fr(42));
    assert_eq!(Fr::half().add(&Fr::half()), Fr::one());
    assert_eq!(Fr::sixth().mul(&fr(6)), Fr::one());
    assert_eq!(minus_one.to_limbs()[0], order[0] - 1);
    assert!(fr(3).equals(&fr(3)));
    assert!(!fr(3).equals(&minus_one));
    assert_eq!(copy_of(&[fr(3), fr(4)]), vec![fr(3), fr(4)]);
}

#[test]
fn field_operations_agree_with_ark() {
    let mut rng = rand_chacha::ChaCha20Rng::seed_from_u64(1_u64);
    for _ in 0..50 {
        let x = ark_bn254::Fr::rand(&mut rng);
        let y = ark_bn254::Fr::rand(&mut rng);
        assert_eq!(from_ark(x).add(&from_ark(y)), from_ark(x + y));
        assert_eq!(from_ark(x).sub(&from_ark(y)), from_ark(x - y));
        assert_eq!(from_ark(x).mul(&from_ark(y)), from_ark(x * y));
    }
}

#[test]
fn field_bytes() {
    let mut bytes = fr(0x0102).to_bytes();
    assert_eq!(bytes.len(), 32);
    assert_eq!(&bytes[..3], &[2, 1, 0]);
    assert_eq!(Fr::from_bytes(&bytes), fr(0x0102));
    // The order of the field, and one more, wrap around.
    bytes = neg(1).to_bytes();
    bytes[0] += 2;
    assert_eq!(Fr::from_bytes(&bytes), fr(1));
    assert_eq!(Fr::from_bytes(&[7]), fr(7));
    assert_eq!(Fr::from_bytes(&[]), fr(0));
}

#[test]
fn transcript_is_a_chain_of_digests() {
    let hash = |data: &[u8]| sha3::Keccak256::digest(data).to_vec();
    let state = hash(b"label");
    let name = hash(b"message");
    let mut framed = state.clone();
    framed.extend_from_slice(&name);
    framed.push(0);
    framed.extend_from_slice(&[1, 2, 3]);
    let state = hash(&framed);
    let mut framed = state.clone();
    framed.extend_from_slice(&hash(b"draw"));
    framed.push(1);
    let state = hash(&framed);

    let mut transcript = ProofTranscript::new("label");
    transcript.append_bytes("message", &[1, 2, 3]);
    let x: Fr = transcript.challenge_scalar("draw");
    assert_eq!(x, Fr::from_bytes(&state));
}

#[test]
fn transcript_challenges_depend_on_messages() {
    let mut a = ProofTranscript::new("label");
    let mut b = ProofTranscript::new("label");
    let (x, y): (Fr, Fr) = (a.challenge_scalar("draw"), b.challenge_scalar("draw"));
    assert_eq!(x, y);
    a.append_scalars("vector", &frs(&[1, 2]));
    b.append_scalars("vector", &frs(&[1, 3]));
    let x: Vec<Fr> = a.challenge_vector("draw", 3);
    let y: Vec<Fr> = b.challenge_vector("draw", 3);
    assert_eq!(x.len(), 3);
    assert_ne!(x, y);
    assert_ne!(x[0], x[1]);
}

#[test]
fn logarithms_round_up() {
    let logs: Vec<usize> = [1, 2, 3, 4, 5, 8, 9, 256].iter().map(|n| log_2(*n)).collect();
    assert_eq!(logs, vec![0, 1, 2, 2, 3, 3, 4, 8]);
}

#[test]
fn lagrange_basis() {
    assert_eq!(EqPolynomial::evals(&frs(&[2, 3])), vec![fr(2), neg(3), neg(4), fr(6)]);
    assert_eq!(EqPolynomial::evals(&frs(&[1, 1])), frs(&[0, 0, 0, 1]));
    assert_eq!(EqPolynomial::evals(&frs(&[])), frs(&[1]));
    // (2 * 5 + 1 * 4) * (3 * 7 + 2 * 6)
    assert_eq!(EqPolynomial::evaluate(&frs(&[2, 3]), &frs(&[5, 7])), fr(14 * 33));
}

#[test]
fn dense_polynomials() {
    let mut p = DensePolynomial::new(frs(&[1, 2, 10, 20]));
    assert_eq!(p.len(), 4);
    assert_eq!(p.get(2), fr(10));
    // p(x, y) = 1 + 9 x + y + 9 x y
    assert_eq!(evaluate_all(&[p.copy()], &frs(&[3, 4])), vec![fr(1 + 27 + 4 + 108)]);
    p.bound_poly_var_top(&fr(3));
    assert_eq!(p.evaluations(), frs(&[28, 56]));
    assert_eq!(p.evaluate_at_chi(&frs(&[1, 2])), fr(28 + 112));
}

#[test]
fn table_of_partial_products() {
    let v = DensePolynomial::new(frs(&[2, 3, 5, 7]));
    let (f_1_r, f_r_0, f_r_1, product) = v_into_f(&v);
    assert_eq!(f_1_r.evaluations(), frs(&[6, 35, 210, 0]));
    assert_eq!(f_r_0.evaluations(), frs(&[2, 5, 6, 210]));
    assert_eq!(f_r_1.evaluations(), frs(&[3, 7, 35, 0]));
    assert_eq!(product, fr(210));
}

#[test]
fn table_of_one_leaf() {
    let (f_1_r, f_r_0, f_r_1, product) = v_into_f(&DensePolynomial::new(frs(&[9])));
    assert_eq!(f_1_r.evaluations(), frs(&[0]));
    assert_eq!(f_r_0.evaluations(), frs(&[9]));
    assert_eq!(f_r_1.evaluations(), frs(&[0]));
    assert_eq!(product, fr(9));
}

#[test]
fn combinations() {
    assert_eq!(combine(&frs(&[2, 3]), &frs(&[5, 7])), fr(31));
    assert_eq!(combine(&frs(&[2, 3, 4]), &frs(&[5, 7])), fr(31));
    // 2 * (3 * (11 - 5 * 2) + 7 * 5)
    assert_eq!(term_value(&fr(2), &fr(3), &fr(7), &fr(11), &fr(5), &fr(2)), fr(76));
    assert_eq!(layer_value(&fr(2), &fr(3), &fr(5), &fr(7)), fr(210));
    let quark = QuarkCombination { r_combination: frs(&[2]) };
    assert_eq!(quark.evaluate(&frs(&[11, 5, 2, 3, 7])), fr(76));
    let layer = LayerCombination { coeffs: frs(&[2, 1]) };
    assert_eq!(layer.evaluate(&frs(&[5, 7, 1, 4, 3])), fr(210 + 12));
}

#[test]
fn sumcheck_round_trip() {
    let tables = [frs(&[1, 2, 3, 4]), frs(&[5, 6, 7, 8]), frs(&[9, 10, 11, 12])];
    let mut polys: Vec<DensePolynomial<Fr>> =
        tables.iter().map(|t| DensePolynomial::new(t.clone())).collect();
    let comb = LayerCombination { coeffs: frs(&[1]) };
    let claim = fr(5 * 9 + 2 * 60 + 3 * 77 + 4 * 96);
    let mut prover = ProofTranscript::new("sum");
    let (mut proof, r, values) =
        SumcheckInstanceProof::prove_arbitrary(&claim, 2, &mut polys, &comb, &mut prover);
    let unbound: Vec<DensePolynomial<Fr>> =
        tables.iter().map(|t| DensePolynomial::new(t.clone())).collect();
    assert_eq!(values, evaluate_all(&unbound, &r));
    for (poly, value) in polys.iter().zip(values.iter()) {
        assert_eq!(poly.evaluations(), vec![*value]);
    }

    let mut verifier = ProofTranscript::new("sum");
    let (left, point) = proof.verify(claim, 2, &mut verifier).unwrap();
    assert_eq!(point, r);
    assert_eq!(left, comb.evaluate(&values));
    // A false claim leaves a false claim.
    let (left, _) = proof.verify(claim.add(&fr(1)), 2, &mut ProofTranscript::new("sum")).unwrap();
    assert_ne!(left, comb.evaluate(&values));

    let mut other = ProofTranscript::new("sum");
    assert_eq!(proof.verify(claim, 3, &mut other), Err(ProofVerifyError::InvalidRounds));
    proof.compressed_polys[1].coeffs_except_linear_term.push(fr(1));
    assert_eq!(proof.verify(claim, 2, &mut other), Err(ProofVerifyError::InvalidDegree));
    // The transcript is as it was.
    let x: Fr = other.challenge_scalar("draw");
    assert_eq!(x, ProofTranscript::new("sum").challenge_scalar("draw"));
}

#[test]
fn lines_are_reduced_on_both_sides() {
    let table = frs(&[1, 2, 3, 4, 5, 6, 7, 9]);
    let polys = vec![DensePolynomial::new(table)];
    let r = frs(&[2, 3]);
    for is_before in [true, false] {
        let mut prover = ProofTranscript::new("line");
        let ((point, claims), data) = line_reduce(&r, is_before, &polys, &mut prover);
        let t = if is_before { point[2] } else { point[0] };
        let at = |x: Fr| if is_before { vec![r[0], r[1], x] } else { vec![x, r[0], r[1]] };
        assert_eq!(point, at(t));
        assert_eq!(data.0, evaluate_all(&polys, &at(fr(0))));
        assert_eq!(data.1, evaluate_all(&polys, &at(fr(1))));
        assert_eq!(claims, evaluate_all(&polys, &point));
        assert_eq!(claims[0], data.0[0].add(&t.mul(&data.1[0].sub(&data.0[0]))));

        let mut verifier = ProofTranscript::new("line");
        let answer = line_reduce_verify(&data, &r, is_before, &mut verifier);
        assert_eq!(answer, (point, claims));
        let x: Fr = prover.challenge_scalar("draw");
        assert_eq!(x, verifier.challenge_scalar("draw"));
    }
}

#[test]
fn line_openings() {
    let polys =
        vec![DensePolynomial::new(frs(&[1, 2, 3, 5])), DensePolynomial::new(frs(&[8, 6, 7, 5]))];
    let setup: usize = 2;
    let commitments = Scheme::batch_commit_polys(&polys, &setup, BatchType::Big);
    let r = frs(&[4]);
    for is_before in [true, false] {
        let mut data = open_and_prove::<Scheme>(
            &r,
            is_before,
            &polys,
            &setup,
            &mut ProofTranscript::new("line"),
        );
        let verify = |data: &(Vec<Fr>, Vec<Fr>, ())| {
            line_reduce_opening_verify::<Scheme>(
                data,
                &r,
                is_before,
                &commitments,
                &mut ProofTranscript::new("line"),
                &setup,
            )
        };
        assert_eq!(verify(&data), Ok(()));
        data.0[1] = data.0[1].add(&fr(1));
        assert_eq!(verify(&data), Err(QuarkError::InvalidOpeningProof));
    }
}

#[test]
fn plain_openings() {
    let polys = vec![DensePolynomial::new(frs(&[1, 2, 3, 5]))];
    let setup: usize = 2;
    let commitments = Scheme::batch_commit_polys(&polys, &setup, BatchType::Small);
    let point = frs(&[4, 6]);
    let openings = evaluate_all(&polys, &point);
    let verify = |point: &[Fr], openings: &[Fr]| {
        Scheme::batch_verify(
            &(),
            &setup,
            point,
            openings,
            &commitments,
            &mut ProofTranscript::new("open"),
        )
    };
    assert_eq!(verify(&point, &openings), Ok(()));
    assert_eq!(verify(&point, &frs(&[1])), Err(ProofVerifyError::InvalidOpening));
    assert_eq!(verify(&point, &[]), Err(ProofVerifyError::InvalidOpening));
    assert_eq!(verify(&point[..1], &openings), Err(ProofVerifyError::InvalidOpening));
}

#[test]
fn values_of_the_table_from_those_of_the_leaves() {
    let h = DensePolynomial::new(frs(&[2, 3, 5, 7]));
    let (g, f_r_0, f_r_1, _) = v_into_f(&h);
    let x = frs(&[10, 20]);
    let joined = |last: u64| {
        let point = vec![x[1], fr(last)];
        let h_value = evaluate_all(&[h.copy()], &point)[0];
        let g_value = evaluate_all(&[g.copy()], &point)[0];
        h_value.add(&x[0].mul(&g_value.sub(&h_value)))
    };
    assert_eq!(evaluate_all(&[f_r_0, f_r_1], &x), vec![joined(0), joined(1)]);
}

#[test]
fn quark_sum_is_the_combination_of_the_products() {
    let leaves = [frs(&[2, 3, 5, 7]), frs(&[11, 13, 17, 19])];
    let rho = frs(&[100, 200]);
    let mut tables: Vec<Vec<Fr>> = Vec::new();
    let mut products = Vec::new();
    for row in leaves.iter() {
        let (f_1_r, f_r_0, f_r_1, product) = v_into_f(&DensePolynomial::new(row.clone()));
        tables.push(f_1_r.evaluations());
        tables.push(f_r_0.evaluations());
        tables.push(f_r_1.evaluations());
        products.push(product);
    }
    tables.push(EqPolynomial::evals(&frs(&[31, 37])));
    tables.push(EqPolynomial::evals(&frs(&[1, 1])));
    let comb = QuarkCombination { r_combination: rho.clone() };
    let mut sum = fr(0);
    for x in 0..4 {
        let column: Vec<Fr> = tables.iter().map(|t| t[x]).collect();
        let value = comb.evaluate(&column);
        if x < 3 {
            assert_eq!(value, fr(0));
        }
        sum = sum.add(&value);
    }
    assert_eq!(products, vec![fr(210), fr(46189)]);
    assert_eq!(sum, combine(&products, &rho));
    assert_eq!(sum, fr(100 * 210 + 200 * 46189));
}

#[test]
fn layer_sum_is_the_combination_of_the_layer_above() {
    let row = frs(&[2, 3, 5, 7]);
    let r = frs(&[9]);
    let eq = EqPolynomial::evals(&r);
    let comb = LayerCombination { coeffs: frs(&[100]) };
    let mut sum = fr(0);
    for x in 0..2 {
        sum = sum.add(&comb.evaluate(&vec![row[2 * x], row[2 * x + 1], eq[x]]));
    }
    let above = DensePolynomial::new(frs(&[6, 35]));
    assert_eq!(sum, combine(&evaluate_all(&[above], &r), &frs(&[100])));
    assert_eq!(sum, fr(100 * (6 + 9 * 29)));
}
