use gkr::circuit::{Circuit, Gate, Layer};
use gkr::field::Fp;
use gkr::multilinear::MultiLinearPolynomial;
use gkr::sumcheck::sum_over_boolean_hyper_cube;

type Fr = Fp<18446744073709551557>;

fn fr(x: u64) -> Fr {
    Fr::from_u64(x)
}

fn frs(xs: &[u64]) -> Vec<Fr> {
    xs.iter().map(|x| fr(*x)).collect()
}

fn test_circuit() -> Circuit {
    let layer_0 = Layer::new(vec![Gate::new(0, 0, 1)], vec![]);
    let layer_1 = Layer::new(vec![Gate::new(0, 0, 1)], vec![Gate::new(1, 2, 3)]);
    let layer_2 = Layer::new(
        vec![Gate::new(2, 4, 5), Gate::new(3, 6, 7)],
        vec![Gate::new(0, 0, 1), Gate::new(1, 2, 3)],
    );
    Circuit::new(vec![layer_0, layer_1, layer_2]).unwrap()
}

fn non_uniform_circuit() -> Circuit {
    let layer_0 = Layer::new(vec![Gate::new(0, 0, 1), Gate::new(1, 2, 3)], vec![]);
    let layer_1 = Layer::new(
        vec![],
        vec![
            Gate::new(0, 0, 1),
            Gate::new(1, 2, 3),
            Gate::new(2, 4, 5),
            Gate::new(3, 6, 7),
        ],
    );
    let layer_2 = Layer::new(
        vec![],
        vec![
            Gate::new(0, 1, 0),
            Gate::new(1, 1, 0),
            Gate::new(2, 2, 0),
            Gate::new(3, 0, 5),
            Gate::new(4, 2, 0),
            Gate::new(5, 1, 0),
            Gate::new(6, 3, 0),
            Gate::new(7, 0, 5),
        ],
    );
    Circuit::new(vec![layer_0, layer_1, layer_2]).unwrap()
}

#[test]
fn test_max_input_index() {
    let layer = Layer::new(
        vec![],
        vec![
            Gate::new(0, 1, 0),
            Gate::new(1, 1, 6),
            Gate::new(2, 2, 0),
            Gate::new(3, 0, 5),
            Gate::new(4, 2, 0),
            Gate::new(5, 1, 0),
            Gate::new(6, 3, 0),
            Gate::new(7, 0, 5),
        ],
    );
    assert_eq!(layer.max_input_index(), 6);

    let empty_layer = Layer::new(vec![], vec![]);
    assert_eq!(empty_layer.max_input_index(), -1);
}

#[test]
fn test_circuit_evaluation() {
    let layer_0 = Layer::new(vec![], vec![Gate::new(0, 0, 1)]);
    assert_eq!(layer_0.len(), 1);

    let layer_1 = Layer::new(vec![Gate::new(0, 0, 1)], vec![Gate::new(1, 2, 3)]);
    assert_eq!(layer_1.len(), 2);

    let circuit = Circuit::new(vec![layer_0, layer_1]).unwrap();

    let circuit_eval = circuit.evaluate(frs(&[2, 3, 4, 5])).expect("should eval");

    assert_eq!(circuit_eval.len(), 3);
    assert_eq!(circuit_eval[0], frs(&[100]));
    assert_eq!(circuit_eval[1], frs(&[5, 20]));
    assert_eq!(circuit_eval[2], frs(&[2, 3, 4, 5]));

    let circuit = test_circuit();
    let circuit_eval = circuit.evaluate(frs(&[1, 2, 3, 4, 5, 6, 7, 8])).unwrap();
    assert_eq!(circuit_eval.len(), 4);
    assert_eq!(circuit_eval[0], frs(&[179]));
    assert_eq!(circuit_eval[1], frs(&[14, 165]));
    assert_eq!(circuit_eval[2], frs(&[2, 12, 11, 15]));
    assert_eq!(circuit_eval[3], frs(&[1, 2, 3, 4, 5, 6, 7, 8]));
}

#[test]
fn test_gate_to_binary_string() {
    let g1 = Gate::new(0, 0, 1);
    let gate_bit = g1.to_bit_string(1, 1);
    assert_eq!(gate_bit, "001".to_string());

    let g2 = Gate::new(1, 2, 3);
    let gate_bit = g2.to_bit_string(1, 2);
    assert_eq!(gate_bit, "11011");
}

#[test]
fn test_add_and_mul_mle_generation() {
    let circuit = test_circuit();

    let [add_0, mult_0]: [MultiLinearPolynomial<18446744073709551557>; 2] =
        circuit.add_mul_mle(0).unwrap();
    assert_eq!(add_0.n_vars(), 3);
    assert_eq!(mult_0.n_vars(), 0);
    assert_eq!(sum_over_boolean_hyper_cube(&add_0), fr(1));
    assert_eq!(add_0.evaluate(&frs(&[0, 0, 1])).unwrap(), fr(1));
    assert_eq!(sum_over_boolean_hyper_cube(&mult_0), fr(0));

    let [add_1, mult_1]: [MultiLinearPolynomial<18446744073709551557>; 2] =
        circuit.add_mul_mle(1).unwrap();
    assert_eq!(add_1.n_vars(), 5);
    assert_eq!(mult_1.n_vars(), 5);
    assert_eq!(sum_over_boolean_hyper_cube(&add_1), fr(1));
    assert_eq!(add_1.evaluate(&frs(&[0, 0, 0, 0, 1])).unwrap(), fr(1));
    assert_eq!(sum_over_boolean_hyper_cube(&mult_1), fr(1));
    assert_eq!(mult_1.evaluate(&frs(&[1, 1, 0, 1, 1])).unwrap(), fr(1));

    let [add_2, mult_2]: [MultiLinearPolynomial<18446744073709551557>; 2] =
        circuit.add_mul_mle(2).unwrap();
    assert_eq!(add_2.n_vars(), 8);
    assert_eq!(mult_2.n_vars(), 8);
    assert_eq!(sum_over_boolean_hyper_cube(&add_2), fr(2));
    assert_eq!(add_2.evaluate(&frs(&[1, 0, 1, 0, 0, 1, 0, 1])).unwrap(), fr(1));
    assert_eq!(add_2.evaluate(&frs(&[1, 1, 1, 1, 0, 1, 1, 1])).unwrap(), fr(1));
    assert_eq!(sum_over_boolean_hyper_cube(&mult_2), fr(2));
    assert_eq!(mult_2.evaluate(&frs(&[0, 0, 0, 0, 0, 0, 0, 1])).unwrap(), fr(1));
    assert_eq!(mult_2.evaluate(&frs(&[0, 1, 0, 1, 0, 0, 1, 1])).unwrap(), fr(1));
}

#[test]
fn test_add_mle_and_mul_mle_generation_for_non_uniform_circuit() {
    let circuit = non_uniform_circuit();
    let [add_last, mul_last]: [MultiLinearPolynomial<18446744073709551557>; 2] =
        circuit.add_mul_mle(circuit.layers().len() - 1).unwrap();
    assert_eq!(add_last.n_vars(), 0);
    assert_eq!(mul_last.n_vars(), 9);
}

#[test]
fn test_w_function() {
    let evaluations = vec![frs(&[1, 2])];
    assert!(Circuit::w(evaluations.as_slice(), 1).is_err());
    assert_eq!(
        Circuit::w(evaluations.as_slice(), 0).unwrap(),
        MultiLinearPolynomial::interpolate(evaluations[0].as_slice())
    );
}

#[test]
fn test_circuit_addition() {
    let circuit_a = Circuit::new(vec![Layer::new(vec![], vec![Gate::new(0, 0, 1)])]).unwrap();
    let circuit_b = Circuit::new(vec![Layer::new(vec![Gate::new(1, 2, 3)], vec![])]).unwrap();

    let circuit_c = circuit_a.add(circuit_b).unwrap();

    let evaluation_result = circuit_c.evaluate(frs(&[2, 3, 4, 5])).unwrap();
    assert_eq!(evaluation_result.len(), 2);
    assert_eq!(evaluation_result[0], frs(&[6, 9]));
}

#[test]
fn test_circuit_additive_identity() {
    let circuit_a = Circuit::new(vec![Layer::new(vec![], vec![Gate::new(0, 0, 1)])]).unwrap();
    let circuit_b = Circuit::additive_identity(1);
    let circuit_c = circuit_a.clone().add(circuit_b).unwrap();
    assert_eq!(circuit_c, circuit_a);
}

#[test]
fn circuit_addition_needs_equal_depth() {
    let one = Circuit::new(vec![Layer::new(vec![], vec![Gate::new(0, 0, 1)])]).unwrap();
    let two = Circuit::additive_identity(2);
    assert!(one.add(two).is_err());
    assert!(Circuit::new(vec![]).is_err());
}

#[test]
fn evaluating_in_a_small_field_wraps() {
    // 10 * 20 = 200 = 13 (mod 17)
    let circuit = Circuit::new(vec![Layer::new(vec![], vec![Gate::new(0, 0, 1)])]).unwrap();
    let values = circuit.evaluate(vec![Fp::<17>::from_u64(10), Fp::<17>::from_u64(20)]).unwrap();
    assert_eq!(values[0], vec![Fp::<17>::from_u64(13)]);
}
