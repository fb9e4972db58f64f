use gkr::circuit::{Circuit, Gate, Layer};
use gkr::field::Fp;
use gkr::gkr::{evaluate_l_function, l, prove, q, verify, GkrProof};
use gkr::multilinear::MultiLinearPolynomial;

const R: u64 = 18446744073709551557;
type Fr = Fp<R>;
type Fq = Fp<17>;

fn fr(x: u64) -> Fr {
    Fr::from_u64(x)
}

fn frs(xs: &[u64]) -> Vec<Fr> {
    xs.iter().map(|x| fr(*x)).collect()
}

fn fqs(xs: &[u64]) -> Vec<Fq> {
    xs.iter().map(|x| Fq::from_u64(*x)).collect()
}

fn test_circuit() -> Circuit {
    let layer_0 = Layer::new(vec![Gate::new(0, 0, 1)], vec![]);
    let layer_1 = Layer::new(vec![Gate::new(0, 0, 1)], vec![Gate::new(1, 2, 3)]);
    let layer_2 = Layer::new(
        vec![Gate::new(2, 4, 5), Gate::new(3, 6, 7)],
        vec![Gate::new(0, 0, 1), Gate::new(1, 2, 3)],
    );
    Circuit::new(vec![layer_0, layer_1, layer_2]).unwrap()
}

#[test]
fn test_gkr() {
    let circuit = test_circuit();
    let input = frs(&[1, 2, 3, 4, 5, 6, 7, 8]);
    let circut_eval = circuit.evaluate(input.clone()).unwrap();
    let gkr_proof = prove(&test_circuit(), circut_eval).unwrap();
    let verification_result = verify(&test_circuit(), &input, gkr_proof).unwrap();
    assert!(verification_result);
}

#[test]
fn test_wrong_eval_gkr() {
    let circuit = test_circuit();
    let wrong_input = frs(&[1, 2, 3, 4, 5, 6, 7, 8]);
    let invalid_eval = circuit.evaluate(wrong_input).unwrap();
    let invalid_gkr_proof = prove(&test_circuit(), invalid_eval).unwrap();
    let actual_input = frs(&[12, 2, 3, 49, 5, 6, 7, 8]);
    let verification_result = verify(&test_circuit(), &actual_input, invalid_gkr_proof).unwrap();
    assert!(!verification_result);
}

#[test]
fn test_output_zero_gkr() {
    let layer_0 = Layer::new(vec![], vec![Gate::new(0, 0, 1)]);
    let layer_1 = Layer::new(vec![Gate::new(0, 0, 1)], vec![Gate::new(1, 1, 2)]);
    let layer_2 = Layer::new(vec![Gate::new(0, 0, 1), Gate::new(2, 4, 5)], vec![Gate::new(1, 2, 3)]);
    let circuit = Circuit::new(vec![layer_0, layer_1, layer_2]).unwrap();
    let eval_input = fqs(&[5, 2, 3, 4, 9, 8]);
    let evaluation = circuit.evaluate(eval_input.clone()).unwrap();
    let gkr_proof = prove(&circuit, evaluation).unwrap();
    let verification_result = verify(&circuit, &eval_input, gkr_proof).unwrap();
    assert!(verification_result);
}

#[test]
fn gkr_proof_has_one_sumcheck_and_line_per_layer() {
    let circuit = test_circuit();
    let input = frs(&[1, 2, 3, 4, 5, 6, 7, 8]);
    let evals = circuit.evaluate(input).unwrap();
    let out = evals[0].clone();
    let proof = prove(&circuit, evals).unwrap();
    assert_eq!(proof.sumcheck_proofs().len(), 3);
    assert_eq!(proof.q_functions().len(), 3);
    assert_eq!(proof.output_mle(), &MultiLinearPolynomial::interpolate(out.as_slice()));
}

#[test]
fn gkr_prove_needs_layer_values() {
    assert_eq!(prove::<R>(&test_circuit(), vec![]).err(), Some("invalid layer index"));
}

#[test]
fn gkr_verify_refuses_mismatched_proof_parts() {
    let circuit = test_circuit();
    let input = frs(&[1, 2, 3, 4, 5, 6, 7, 8]);
    let evals = circuit.evaluate(input.clone()).unwrap();
    let proof = prove(&circuit, evals).unwrap();
    let mut qs = proof.q_functions().clone();
    qs.pop();
    let broken = GkrProof::new(proof.output_mle().clone(), proof.sumcheck_proofs().clone(), qs);
    assert_eq!(verify(&circuit, &input, broken), Err("invalid gkr proof"));
}

#[test]
fn gkr_verify_refuses_wrong_output_claim() {
    let circuit = test_circuit();
    let input = frs(&[1, 2, 3, 4, 5, 6, 7, 8]);
    let evals = circuit.evaluate(input.clone()).unwrap();
    let proof = prove(&circuit, evals).unwrap();
    let wrong_output = MultiLinearPolynomial::interpolate(frs(&[7, 7]).as_slice());
    let forged = GkrProof::new(wrong_output, proof.sumcheck_proofs().clone(), proof.q_functions().clone());
    assert_eq!(verify(&circuit, &input, forged), Err("invalid sumcheck proof"));
}

#[test]
fn line_through_two_points() {
    let b = frs(&[1, 2]);
    let c = frs(&[5, 3]);
    let line = l(&b, &c).unwrap();
    assert_eq!(evaluate_l_function(&line, &fr(0)), b);
    assert_eq!(evaluate_l_function(&line, &fr(1)), c);
    assert_eq!(evaluate_l_function(&line, &fr(2)), frs(&[9, 4]));
    assert!(l(&b, &frs(&[1])).is_err());
}

#[test]
fn restriction_to_a_line_agrees_with_the_polynomial() {
    let w = MultiLinearPolynomial::interpolate(frs(&[3, 1, 4, 1]).as_slice());
    let line = l(&frs(&[2, 7]), &frs(&[5, 11])).unwrap();
    let restricted = q(&line, &w).unwrap();
    for x in [0u64, 1, 2, 10, 1234] {
        let point = evaluate_l_function(&line, &fr(x));
        assert_eq!(restricted.evaluate(&fr(x)), w.evaluate(&point).unwrap());
    }
    assert!(q(&line[..1], &w).is_err());
}
