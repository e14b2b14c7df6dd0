use succinct_proofs::circuit::Circuit;
use succinct_proofs::field::FieldElement;
use succinct_proofs::gate::{Gate, Operation};
use succinct_proofs::gkr::{GKRProver, GKRVerifier};
use succinct_proofs::kzg::{
    generate_lagrange_basis_for_n_variables, MultilinearKZGProver, MultilinearKZGVerifier,
    TrustedSetup,
};
use succinct_proofs::multilinear::MultiLinearPolynomial;
use succinct_proofs::product_polynomial::ProductPolynomial;
use succinct_proofs::sum_polynomial::SumPolynomial;
use succinct_proofs::sumcheck::{SumCheckProof, SumcheckProver, SumcheckVerifier};
use succinct_proofs::transcript::Transcript;
use succinct_proofs::univariate::UnivariatePolynomial;

use ark_ec::PrimeGroup;

fn fe(x: u64) -> FieldElement {
    FieldElement::from_u64(x)
}

fn fes(xs: &[u64]) -> Vec<FieldElement> {
    xs.iter().map(|&x| fe(x)).collect()
}

#[test]
fn transcript_test_hardcoded_transcript() {
    let mut first_transcript = Transcript::new();
    let mut second_transcript = Transcript::new();

    first_transcript.append(b"hello");
    first_transcript.append(b"world");

    second_transcript.append(b"hello");
    second_transcript.append(b"world");

    assert_eq!(
        first_transcript.sample_challenge(),
        second_transcript.sample_challenge()
    );
}

/// The two-layer circuit, output layer first, with inputs 1..=4.
fn two_layer_circuit() -> (Circuit, Vec<FieldElement>) {
    let circuit = Circuit::new(vec![
        vec![Gate::new(0, 1, Operation::Add)],
        vec![
            Gate::new(0, 1, Operation::Add),
            Gate::new(2, 3, Operation::Mul),
        ],
    ]);
    (circuit, fes(&[1, 2, 3, 4]))
}

#[test]
fn arithmetic_gate_test() {
    let (mut circuit, inputs) = two_layer_circuit();
    let evaluations = circuit.evaluate_at_input(inputs).unwrap();
    assert_eq!(
        *evaluations.last().unwrap().get_evaluation_points(),
        fes(&[15, 0])
    );
}

#[test]
fn test_get_add_i() {
    let (circuit, _) = two_layer_circuit();
    let mut expected = fes(&[0; 32]);
    expected[1] = fe(1);
    assert_eq!(
        *circuit.get_add_i(1).unwrap().get_evaluation_points(),
        expected
    );
}

#[test]
fn test_get_mul_i() {
    let (circuit, _) = two_layer_circuit();
    let mut expected = fes(&[0; 32]);
    expected[27] = fe(1);
    assert_eq!(
        *circuit.get_mul_i(1).unwrap().get_evaluation_points(),
        expected
    );
}

#[test]
fn sumcheck_protocol_test_full_sumcheck_pass() {
    let initial_polynomial =
        MultiLinearPolynomial::new(&fes(&[0, 0, 0, 3, 0, 0, 2, 5])).unwrap();
    let sum_check_proof = SumcheckProver::generate_sumcheck_proof(&initial_polynomial);
    assert!(SumcheckVerifier::verify_proof(
        &initial_polynomial,
        sum_check_proof
    ));
}

#[test]
fn sumcheck_protocol_test_full_sumcheck_fail() {
    let polynomial = MultiLinearPolynomial::new(&fes(&[0, 0, 0, 3, 0, 0, 2, 65])).unwrap();
    let sum_check_proof = SumCheckProof {
        initial_claim_sum: fe(10),
        round_polys: vec![
            UnivariatePolynomial::new(fes(&[3, 7])),
            UnivariatePolynomial::new(fes(&[9, 10])),
            UnivariatePolynomial::new(fes(&[10, 97])),
        ],
    };
    assert_eq!(
        SumcheckVerifier::verify_proof(&polynomial, sum_check_proof),
        false
    );
}

#[test]
fn sumcheck_protocol_test_partial_sumcheck_pass() {
    let eval_1 = fes(&[0, 0, 0, 2]);
    let eval_2 = fes(&[0, 0, 0, 3]);
    let member = || {
        ProductPolynomial::new(vec![
            MultiLinearPolynomial::new(&eval_1).unwrap(),
            MultiLinearPolynomial::new(&eval_2).unwrap(),
        ])
        .unwrap()
    };
    let initial_polynomial = SumPolynomial::new(vec![member(), member()]).unwrap();

    let (sum_check_proof, _) = SumcheckProver::generate_proof_for_partial_verify(
        fe(12),
        initial_polynomial,
        &mut Transcript::new(),
    );

    let (ok, _, _) = SumcheckVerifier::partial_verify(&sum_check_proof, &mut Transcript::new());
    assert!(ok);
}

/// The three-layer circuit, output layer first, with inputs 1..=8.
fn three_layer_circuit() -> (Circuit, Vec<FieldElement>) {
    let circuit = Circuit::new(vec![
        vec![Gate::new(0, 1, Operation::Add)],
        vec![
            Gate::new(0, 1, Operation::Mul),
            Gate::new(2, 3, Operation::Add),
        ],
        vec![
            Gate::new(0, 1, Operation::Add),
            Gate::new(2, 3, Operation::Add),
            Gate::new(4, 5, Operation::Add),
            Gate::new(6, 7, Operation::Mul),
        ],
    ]);
    (circuit, fes(&[1, 2, 3, 4, 5, 6, 7, 8]))
}

fn check_gkr_roundtrip() {
    let (mut circuit, inputs) = three_layer_circuit();
    let gkr_proof =
        GKRProver::generate_proof(&mut circuit, &mut Transcript::new(), &inputs).unwrap();
    assert!(GKRVerifier::verify_proof(
        &inputs,
        &mut circuit,
        &mut Transcript::new(),
        gkr_proof
    ));
}

#[test]
fn gkr_protocol_test_gkr_sum_check() {
    check_gkr_roundtrip();
}

#[test]
fn gkr_test_gkr_sum_check() {
    check_gkr_roundtrip();
}

#[test]
fn gkr_sumcheck_test_gkr_sum_check() {
    check_gkr_roundtrip();
}

#[test]
fn test_gkr_sumcheck_with_kzg() {
    let (mut circuit, inputs) = three_layer_circuit();
    let trusted_setup = TrustedSetup::new(&fes(&[5, 2, 3]));

    let gkr_proof_with_kzg = GKRProver::generate_proof_with_kzg(
        &mut circuit,
        &mut Transcript::new(),
        &inputs,
        &trusted_setup.encrypted_lagrange_basis,
    )
    .unwrap();

    assert!(GKRVerifier::verify_proof_with_kzg(
        &mut circuit,
        &mut Transcript::new(),
        gkr_proof_with_kzg,
        &trusted_setup.encrypted_taus
    ));
}

#[test]
fn test_kzg_protocol_pass() {
    let trusted_setup = TrustedSetup::new(&fes(&[5, 2, 3]));
    let polynomial = MultiLinearPolynomial::new(&fes(&[0, 4, 0, 4, 0, 4, 3, 7])).unwrap();
    let openings = fes(&[6, 4, 0]);

    let proof = MultilinearKZGProver::generate_proof(
        &openings,
        &trusted_setup.encrypted_lagrange_basis,
        &polynomial,
    )
    .unwrap();

    assert!(MultilinearKZGVerifier::verify_proof(
        &proof,
        &openings,
        &trusted_setup.encrypted_taus
    ));
}

fn expected_basis() -> Vec<FieldElement> {
    let zero = FieldElement::zero();
    let neg = |x: u64| zero.sub(&fe(x));
    vec![
        neg(8),
        fe(12),
        fe(16),
        neg(24),
        fe(10),
        neg(15),
        neg(20),
        fe(30),
    ]
}

#[test]
fn multilinear_kzg_test_lagrange_basis_for_n_variables_with_same_length_of_taus() {
    let basis = generate_lagrange_basis_for_n_variables(3, &fes(&[5, 2, 3])).unwrap();
    assert_eq!(basis, expected_basis());
}

#[test]
fn utils_test_lagrange_basis_for_n_variables_with_same_length_of_taus() {
    let basis = generate_lagrange_basis_for_n_variables(3, &fes(&[5, 2, 3])).unwrap();
    assert_eq!(basis, expected_basis());
}

fn check_commitment_is_g1_42() {
    let trusted_setup = TrustedSetup::new(&fes(&[5, 2, 3]));
    let polynomial = MultiLinearPolynomial::new(&fes(&[0, 4, 0, 4, 0, 4, 3, 7])).unwrap();
    let commitment = MultilinearKZGProver::generate_commitment(
        &polynomial,
        &trusted_setup.encrypted_lagrange_basis,
    )
    .unwrap();
    let expected = ark_bls12_381::G1Projective::generator() * ark_bls12_381::Fr::from(42u64);
    assert_eq!(commitment.0, expected);
}

#[test]
fn multilinear_kzg_test_generate_commitment() {
    check_commitment_is_g1_42();
}

#[test]
fn prover_test_generate_commitment() {
    check_commitment_is_g1_42();
}
