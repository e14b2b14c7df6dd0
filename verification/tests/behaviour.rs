use succinct_proofs::circuit::Circuit;
use succinct_proofs::errors::Error;
use succinct_proofs::field::FieldElement;
use succinct_proofs::gate::{Gate, Operation};
use succinct_proofs::gkr::{GKRProver, GKRVerifier};
use succinct_proofs::kzg::{blowup, MultilinearKZGProver, MultilinearKZGVerifier, TrustedSetup};
use succinct_proofs::merkle::{get_layer_proof_indexes, MerkleProof};
use succinct_proofs::multilinear::MultiLinearPolynomial;
use succinct_proofs::sumcheck::{SumcheckProver, SumcheckVerifier};
use succinct_proofs::transcript::Transcript;
use succinct_proofs::univariate::UnivariatePolynomial;

fn fe(x: u64) -> FieldElement {
    FieldElement::from_u64(x)
}

fn fes(xs: &[u64]) -> Vec<FieldElement> {
    xs.iter().map(|&x| fe(x)).collect()
}

#[test]
fn non_power_of_two_table_is_rejected() {
    let result = MultiLinearPolynomial::new(&fes(&[1, 2, 3]));
    assert_eq!(result.unwrap_err(), Error::InvalidShape);
}

#[test]
fn out_of_range_variable_is_rejected() {
    let mlp = MultiLinearPolynomial::new(&fes(&[1, 2, 3, 4])).unwrap();
    let result = mlp.partially_evaluate(2, &fe(5));
    assert_eq!(result.unwrap_err(), Error::IndexOutOfBounds);
}

#[test]
fn wrong_point_count_is_rejected() {
    let mlp = MultiLinearPolynomial::new(&fes(&[1, 2, 3, 4])).unwrap();
    let points = vec![Some(fe(1))];
    let result = mlp.evaluate(&points);
    assert_eq!(result.unwrap_err(), Error::LengthMismatch);
}

#[test]
fn duplicate_sample_points_are_rejected() {
    let result = UnivariatePolynomial::interpolate(&fes(&[1, 1]), &fes(&[2, 3]));
    assert_eq!(result.unwrap_err(), Error::InvalidProof);
}

#[test]
fn mismatched_interpolation_lengths_are_rejected() {
    let result = UnivariatePolynomial::interpolate(&fes(&[1, 2, 3]), &fes(&[2, 3]));
    assert_eq!(result.unwrap_err(), Error::LengthMismatch);
}

#[test]
fn minus_lowers_the_hypercube_sum() {
    let f = MultiLinearPolynomial::new(&fes(&[1, 2, 3, 4])).unwrap();
    let shifted = f.minus(&fe(2));
    // 10 - 4 * 2 == 2
    assert_eq!(shifted.evaluation_sum(), fe(2));
    assert_eq!(f.evaluation_sum(), fe(10));
}

#[test]
fn leading_variable_halves() {
    let f = MultiLinearPolynomial::new(&fes(&[7, 8, 9, 10])).unwrap();
    let low = f.partially_evaluate(0, &FieldElement::zero()).unwrap();
    let high = f.partially_evaluate(0, &FieldElement::one()).unwrap();
    assert_eq!(*low.get_evaluation_points(), fes(&[7, 8]));
    assert_eq!(*high.get_evaluation_points(), fes(&[9, 10]));
}

#[test]
fn interpolation_round_trip() {
    let g = UnivariatePolynomial::new(fes(&[8, 0, 2]));
    let xs = fes(&[5, 7, 9]);
    let ys: Vec<FieldElement> = xs.iter().map(|x| g.evaluate(x)).collect();
    let back = UnivariatePolynomial::interpolate(&xs, &ys).unwrap();
    assert_eq!(back.coefficients, g.coefficients);
}

#[test]
fn evaluation_bytes_are_little_endian() {
    let f = MultiLinearPolynomial::new(&fes(&[1])).unwrap();
    let bytes = f.to_bytes();
    assert_eq!(bytes.len(), 32);
    assert_eq!(bytes[0], 1);
    assert!(bytes[1..].iter().all(|&b| b == 0));
}

#[test]
fn different_transcripts_differ() {
    let mut first = Transcript::new();
    let mut second = Transcript::new();
    first.append(b"hello");
    second.append(b"other");
    assert_ne!(first.sample_challenge(), second.sample_challenge());
}

#[test]
fn successive_challenges_differ() {
    let mut transcript = Transcript::new();
    transcript.append(b"seed");
    let challenges = transcript.sample_n_challenges(2);
    assert_eq!(challenges.len(), 2);
    assert_ne!(challenges[0], challenges[1]);
}

#[test]
fn tampered_round_polynomial_is_rejected() {
    let initial = MultiLinearPolynomial::new(&fes(&[0, 0, 0, 3, 0, 0, 2, 5])).unwrap();
    let mut proof = SumcheckProver::generate_sumcheck_proof(&initial);
    let last = proof.round_polys.len() - 1;
    let bumped = proof.round_polys[last].coefficients[0].add(&fe(1));
    proof.round_polys[last].coefficients[0] = bumped;
    assert_eq!(SumcheckVerifier::verify_proof(&initial, proof), false);
}

#[test]
fn tampered_kzg_value_is_rejected() {
    let trusted_setup = TrustedSetup::new(&fes(&[5, 2, 3]));
    let polynomial = MultiLinearPolynomial::new(&fes(&[0, 4, 0, 4, 0, 4, 3, 7])).unwrap();
    let openings = fes(&[6, 4, 0]);
    let mut proof = MultilinearKZGProver::generate_proof(
        &openings,
        &trusted_setup.encrypted_lagrange_basis,
        &polynomial,
    )
    .unwrap();
    proof.v = fe(43);
    assert_eq!(
        MultilinearKZGVerifier::verify_proof(&proof, &openings, &trusted_setup.encrypted_taus),
        false
    );
}

#[test]
fn kzg_opening_must_match_absorbed_commitment() {
    let trusted_setup = TrustedSetup::new(&fes(&[5, 2, 3]));
    let mut circuit = Circuit::new(vec![
        vec![Gate::new(0, 1, Operation::Add)],
        vec![
            Gate::new(0, 1, Operation::Mul),
            Gate::new(2, 3, Operation::Add),
        ],
        vec![
            Gate::new(0, 1, Operation::Add),
            Gate::new(2, 3, Operation::Add),
            Gate::new(4, 5, Operation::Add),
            Gate::new(6, 7, Operation::Mul),
        ],
    ]);
    let inputs = fes(&[1, 2, 3, 4, 5, 6, 7, 8]);
    let mut proof = GKRProver::generate_proof_with_kzg(
        &mut circuit,
        &mut Transcript::new(),
        &inputs,
        &trusted_setup.encrypted_lagrange_basis,
    )
    .unwrap();
    // swap one opening's commitment for an unrelated point: the verifier
    // must refuse to use openings that do not open the absorbed commitment
    let other = &trusted_setup.encrypted_lagrange_basis[0];
    proof.kzg_proofs[0].commitment = succinct_proofs::kzg::G1Point(other.0);
    assert_eq!(
        GKRVerifier::verify_proof_with_kzg(
            &mut circuit,
            &mut Transcript::new(),
            proof,
            &trusted_setup.encrypted_taus
        ),
        false
    );
}

#[test]
fn gkr_two_layer_roundtrip() {
    let mut circuit = Circuit::new(vec![
        vec![Gate::new(0, 1, Operation::Add)],
        vec![
            Gate::new(0, 1, Operation::Add),
            Gate::new(2, 3, Operation::Mul),
        ],
    ]);
    let inputs = fes(&[1, 2, 3, 4]);
    let proof = GKRProver::generate_proof(&mut circuit, &mut Transcript::new(), &inputs).unwrap();
    assert_eq!(*proof.output_poly.get_evaluation_points(), fes(&[15, 0]));
    assert!(GKRVerifier::verify_proof(
        &inputs,
        &mut circuit,
        &mut Transcript::new(),
        proof
    ));
}

#[test]
fn gkr_rejects_wrong_inputs() {
    let mut circuit = Circuit::new(vec![
        vec![Gate::new(0, 1, Operation::Add)],
        vec![
            Gate::new(0, 1, Operation::Add),
            Gate::new(2, 3, Operation::Mul),
        ],
    ]);
    let inputs = fes(&[1, 2, 3, 4]);
    let proof = GKRProver::generate_proof(&mut circuit, &mut Transcript::new(), &inputs).unwrap();
    let other_inputs = fes(&[1, 2, 3, 5]);
    assert_eq!(
        GKRVerifier::verify_proof(
            &other_inputs,
            &mut circuit,
            &mut Transcript::new(),
            proof
        ),
        false
    );
}

#[test]
fn field_arithmetic_round_trip() {
    let a = fe(7);
    let b = fe(5);
    assert_eq!(a.add(&b), fe(12));
    assert_eq!(a.sub(&b), fe(2));
    assert_eq!(a.mul(&b), fe(35));
    let inv = b.inverse().unwrap();
    assert_eq!(b.mul(&inv), FieldElement::one());
    assert!(FieldElement::zero().inverse().is_none());
}

#[test]
fn layer_proof_indexes_pair_across_halves() {
    assert_eq!(get_layer_proof_indexes(8, 1), (1, 5));
    assert_eq!(get_layer_proof_indexes(8, 6), (2, 6));
}

#[test]
fn blowup_pads_both_sides() {
    // one fixed variable on the left, one free on the right
    let blown = blowup(3, 1, &fes(&[4, 9]));
    assert_eq!(blown, fes(&[4, 4, 9, 9, 4, 4, 9, 9]));
}

#[test]
fn merkle_proof_keeps_its_path() {
    let proof = MerkleProof::new(vec![vec![1u8, 2u8], vec![3u8]]);
    assert_eq!(proof.len(), 2);
}
