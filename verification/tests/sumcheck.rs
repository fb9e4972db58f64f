use gkr::field::Fp;
use gkr::multilinear::MultiLinearPolynomial;
use gkr::sumcheck::{
    partial_evaluation_points, skip_first_var_then_sum_over_boolean_hypercube, sum_over_boolean_hyper_cube,
    Sumcheck, SumcheckProof,
};
use gkr::transcript::Transcript;
use gkr::univariate::UnivariatePolynomial;

type Fq = Fp<17>;

fn fq(x: u64) -> Fq {
    Fq::from_u64(x)
}

fn p_2ab_3bc() -> MultiLinearPolynomial<17> {
    MultiLinearPolynomial::new(3, vec![(fq(2), vec![true, true, false]), (fq(3), vec![false, true, true])]).unwrap()
}

#[test]
fn test_sumcheck_protocol_correct_sum() {
    let p = p_2ab_3bc();
    let sumcheck_proof = Sumcheck::prove(p, fq(10));
    assert!(Sumcheck::verify(sumcheck_proof));
}

#[test]
fn test_sumcheck_protocol_invalid_sum() {
    let p = p_2ab_3bc();
    let sumcheck_proof = Sumcheck::prove(p, fq(200));
    assert!(!Sumcheck::verify(sumcheck_proof));
}

#[test]
fn test_partial_sumcheck() {
    let partial_proof = Sumcheck::prove_partial(p_2ab_3bc(), fq(200));
    let verification_result = Sumcheck::verify_partial(partial_proof.0);
    assert_eq!(verification_result, None);

    let partial_proof = Sumcheck::prove_partial(p_2ab_3bc(), fq(10));
    let verification_result = Sumcheck::verify_partial(partial_proof.0);
    assert!(verification_result.is_some());
}

#[test]
fn partial_sumcheck_subclaim_matches_the_polynomial() {
    // the final claim of an honest proof is the polynomial's value at the challenges
    let (proof, challenges) = Sumcheck::prove_partial(p_2ab_3bc(), fq(10));
    let subclaim = Sumcheck::verify_partial(proof).unwrap();
    assert_eq!(subclaim.challenges, challenges);
    assert_eq!(subclaim.challenges.len(), 3);
    assert_eq!(p_2ab_3bc().evaluate(&subclaim.challenges).unwrap(), subclaim.sum);
}

#[test]
fn test_sum_over_boolean_hypercube() {
    let poly = p_2ab_3bc();
    let sum = sum_over_boolean_hyper_cube(&poly);
    assert_eq!(sum, fq(10));
}

#[test]
fn test_summation_over_boolean_hypercube() {
    let p = p_2ab_3bc();
    let sum = sum_over_boolean_hyper_cube(&p);
    assert_eq!(sum, fq(10));
}

#[test]
fn test_skip_first_var_sum_over_bool_hypercube() {
    // p = 2ab + 3bc; summing over b and c leaves 4a + 3
    let p = p_2ab_3bc();
    let q = UnivariatePolynomial::try_from(skip_first_var_then_sum_over_boolean_hypercube(p)).unwrap();
    assert_eq!(q, UnivariatePolynomial::new(vec![fq(3), fq(4)]));

    // with a = 1: p = 2b + 3bc, summing over c leaves 7b
    let p = p_2ab_3bc();
    let p = p.partial_evaluate(&[(vec![true, false, false], Fq::one())]).unwrap().relabel();
    let q = UnivariatePolynomial::try_from(skip_first_var_then_sum_over_boolean_hypercube(p)).unwrap();
    assert_eq!(q, UnivariatePolynomial::new(vec![Fq::zero(), fq(7)]));
}

#[test]
fn test_partial_evaluation_point_generation() {
    let eval_values = vec![fq(3), fq(4)];
    let evaluation_points = partial_evaluation_points(4, 0, &eval_values);
    assert_eq!(
        evaluation_points,
        vec![(vec![true, false, false, false], fq(3)), (vec![false, true, false, false], fq(4))],
    );
}

#[test]
fn sumcheck_proof_bytes() {
    let proof = SumcheckProof::new(p_2ab_3bc(), fq(10));
    let bytes = proof.to_bytes();
    // the polynomial's encoding, then the claimed sum
    let mut expected = p_2ab_3bc().to_bytes();
    expected.extend(vec![0, 0, 0, 0, 0, 0, 0, 10]);
    assert_eq!(bytes, expected);
}

#[test]
fn transcript_is_deterministic() {
    let mut a = Transcript::new();
    let mut b = Transcript::new();
    a.append(&[1, 2, 3]);
    b.append(&[1, 2, 3]);
    let x: Fq = a.sample_field_element();
    let y: Fq = b.sample_field_element();
    assert_eq!(x, y);
    let xs: Vec<Fq> = a.sample_n_field_elements(3);
    let ys: Vec<Fq> = b.sample_n_field_elements(3);
    assert_eq!(xs, ys);
    assert_eq!(xs.len(), 3);
}

#[test]
fn transcript_challenge_depends_on_input() {
    let mut a = Transcript::new();
    let mut b = Transcript::new();
    a.append(&[1, 2, 3]);
    b.append(&[1, 2, 4]);
    assert_ne!(a.sample_challenge(), b.sample_challenge());
}
