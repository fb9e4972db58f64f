use gkr::circuit::{Circuit, Gate, Layer};
use gkr::field::Fp;
use gkr::gate_eval_extension::GateEvalExtension;
use gkr::multilinear::MultiLinearPolynomial;

const R: u64 = 18446744073709551557;
type Fr = Fp<R>;

fn fr(x: u64) -> Fr {
    Fr::from_u64(x)
}

fn frs(xs: &[u64]) -> Vec<Fr> {
    xs.iter().map(|x| fr(*x)).collect()
}

fn test_circuit() -> Circuit {
    let layer_0 = Layer::new(vec![Gate::new(0, 0, 1)], vec![]);
    let layer_1 = Layer::new(vec![Gate::new(0, 0, 1)], vec![Gate::new(1, 2, 3)]);
    let layer_2 = Layer::new(
        vec![Gate::new(2, 4, 5), Gate::new(3, 6, 7)],
        vec![Gate::new(0, 0, 1), Gate::new(1, 2, 3)],
    );
    Circuit::new(vec![layer_0, layer_1, layer_2]).unwrap()
}

fn evaluated_circuit() -> (Circuit, Vec<Vec<Fr>>) {
    let circuit = test_circuit();
    let circuit_eval = circuit.evaluate(frs(&[1, 2, 3, 4, 5, 6, 7, 8])).unwrap();
    (circuit, circuit_eval)
}

fn layer_one_parts() -> (MultiLinearPolynomial<R>, MultiLinearPolynomial<R>, MultiLinearPolynomial<R>) {
    let (circuit, circuit_eval) = evaluated_circuit();
    let [add_1, mul_1] = circuit.add_mul_mle::<R>(1).unwrap();
    let w_2 = Circuit::w(circuit_eval.as_slice(), 2).unwrap();
    (add_1, mul_1, w_2)
}

/// The sum of the extension over every point of the boolean hypercube.
fn hypercube_sum(ext: &GateEvalExtension<R>) -> Fr {
    let n = ext.n_vars();
    let mut sum = fr(0);
    for point in 0..(1usize << n) {
        let values: Vec<Fr> = (0..n).map(|i| fr(((point >> i) & 1) as u64)).collect();
        sum = sum.add(&ext.evaluate_slice(&values).unwrap());
    }
    sum
}

#[test]
fn gate_eval_extension_test_gate_eval_extension() {
    let (add_1, mul_1, w_2) = layer_one_parts();

    let gate_eval_ext =
        GateEvalExtension::new(frs(&[0]), add_1.clone(), mul_1.clone(), w_2.clone()).unwrap();
    assert_eq!(gate_eval_ext.evaluate_slice(&frs(&[0, 0, 0, 1])).unwrap(), fr(14));
    assert_eq!(hypercube_sum(&gate_eval_ext), fr(14));

    let gate_eval_ext = GateEvalExtension::new(frs(&[1]), add_1, mul_1, w_2).unwrap();
    assert_eq!(gate_eval_ext.evaluate_slice(&frs(&[1, 0, 1, 1])).unwrap(), fr(165));
    assert_eq!(hypercube_sum(&gate_eval_ext), fr(165));
}

#[test]
fn test_partial_evaluation() {
    let (add_1, mul_1, w_2) = layer_one_parts();

    let gate_eval_ext = GateEvalExtension::new(frs(&[10]), add_1, mul_1, w_2).unwrap();
    assert_eq!(gate_eval_ext.n_vars(), 4);

    assert_eq!(gate_eval_ext.evaluate_slice(&frs(&[1, 2, 3, 4])).unwrap(), fr(6840));

    let p1 = gate_eval_ext.partial_evaluate(&[(vec![true, false, false, false], fr(1))]).unwrap();
    let p2 = p1.partial_evaluate(&[(vec![false, true, false, false], fr(2))]).unwrap();
    assert_eq!(p2.n_vars(), 4);
    let p2 = p2.relabel();
    assert_eq!(p2.n_vars(), 2);

    let p3 = p2.partial_evaluate(&[(vec![true, false], fr(3))]).unwrap();
    assert_eq!(p3.n_vars(), 2);
    let p3 = p3.relabel();
    assert_eq!(p3.n_vars(), 1);

    let p4 = p3.partial_evaluate(&[(vec![true], fr(4))]).unwrap();
    assert_eq!(p4.n_vars(), 1);
    let p4 = p4.relabel();
    assert_eq!(p4.n_vars(), 0);

    assert_eq!(p4.evaluate_slice(&[]).unwrap(), fr(6840));
}

#[test]
fn test_to_univariate() {
    let (add_1, mul_1, w_2) = layer_one_parts();

    let gate_eval_ext = GateEvalExtension::new(frs(&[10]), add_1, mul_1, w_2).unwrap();
    assert_eq!(gate_eval_ext.n_vars(), 4);

    let p1 = gate_eval_ext
        .partial_evaluate(&[
            (vec![true, false, false, false], fr(1)),
            (vec![false, false, true, false], fr(2)),
            (vec![false, false, false, true], fr(3)),
        ])
        .unwrap()
        .relabel();
    assert_eq!(p1.n_vars(), 1);
    assert_eq!(p1.mul_mles()[0].n_vars(), p1.r().len() + 1);
    assert_eq!(p1.add_mles()[0].n_vars(), p1.r().len() + 1);
    assert_eq!(p1.w_b_mles()[0].n_vars(), 1);
    assert_eq!(p1.w_c_mles()[0].n_vars(), 0);

    let evaluation = p1.evaluate_slice(&frs(&[12])).unwrap();

    let p1_univariate = p1.to_univariate().unwrap();
    let uni_evaluation = p1_univariate.evaluate(&fr(12));

    assert_eq!(evaluation, uni_evaluation);
}

#[test]
fn gate_eval_extension_construction_errors() {
    let (add_1, mul_1, w_2) = layer_one_parts();
    // the output label must have |add| - 2|w| = 1 value
    assert!(GateEvalExtension::new(frs(&[1, 2]), add_1.clone(), mul_1.clone(), w_2.clone()).is_err());
    assert!(GateEvalExtension::new(vec![], add_1.clone(), mul_1.clone(), w_2.clone()).is_err());
    // the wiring polynomials need twice the variables of w
    let big_w = MultiLinearPolynomial::interpolate(&frs(&[1, 2, 3, 4, 5, 6, 7, 8]));
    assert!(GateEvalExtension::new(frs(&[1]), add_1.clone(), mul_1.clone(), big_w).is_err());
    // wiring polynomials of different layers
    let small = MultiLinearPolynomial::interpolate(&frs(&[1, 2]));
    assert!(GateEvalExtension::new(frs(&[1]), add_1, small, w_2).is_err());
}

#[test]
fn gate_eval_extension_wrong_assignment_length() {
    let (add_1, mul_1, w_2) = layer_one_parts();
    let ext = GateEvalExtension::new(frs(&[0]), add_1, mul_1, w_2).unwrap();
    assert!(ext.evaluate_slice(&frs(&[0, 0, 1])).is_err());
    assert!(ext.partial_evaluate(&[(vec![true, true, false, false], fr(1))]).is_err());
    // more than one variable left: no univariate polynomial
    assert!(ext.to_univariate().is_err());
}

#[test]
fn gate_eval_extension_addition() {
    let (add_1, mul_1, w_2) = layer_one_parts();
    let a = GateEvalExtension::new(frs(&[0]), add_1.clone(), mul_1.clone(), w_2.clone()).unwrap();
    let b = GateEvalExtension::new(frs(&[0]), add_1.clone(), mul_1.clone(), w_2.clone()).unwrap();
    let sum = a.add(&b).unwrap();
    assert_eq!(sum.count(), 2);
    // evaluations add up
    let point = frs(&[0, 0, 0, 1]);
    assert_eq!(sum.evaluate_slice(&point).unwrap(), fr(28));
    let other = frs(&[3, 5, 7, 11]);
    assert_eq!(
        sum.evaluate_slice(&other).unwrap(),
        a.evaluate_slice(&other).unwrap().add(&b.evaluate_slice(&other).unwrap())
    );
    // the empty sum is neutral on both sides
    let zero = GateEvalExtension::<R>::additive_identity();
    assert!(zero.is_additive_identity());
    assert_eq!(zero.add(&a).unwrap(), a);
    assert_eq!(a.add(&zero).unwrap(), a);
    // different output labels cannot be added
    let c = GateEvalExtension::new(frs(&[1]), add_1, mul_1, w_2).unwrap();
    assert!(a.add(&c).is_err());
}

#[test]
fn gate_eval_extension_bytes() {
    let zero = GateEvalExtension::<R>::additive_identity();
    assert!(zero.to_bytes().is_empty());
    let (add_1, mul_1, w_2) = layer_one_parts();
    let a = GateEvalExtension::new(frs(&[3]), add_1.clone(), mul_1.clone(), w_2.clone()).unwrap();
    let mut expected = vec![0, 0, 0, 0, 0, 0, 0, 3];
    expected.extend(add_1.to_bytes());
    expected.extend(mul_1.to_bytes());
    expected.extend(w_2.to_bytes());
    expected.extend(w_2.to_bytes());
    assert_eq!(a.to_bytes(), expected);
}
