use gkr::field::Fp;
use gkr::libra::{Builder, LayeredCircuit, LibraLayer};

type Fr = Fp<18446744073709551557>;

fn frs(xs: &[u64]) -> Vec<Fr> {
    xs.iter().map(|x| Fr::from_u64(*x)).collect()
}

fn circuit() -> LayeredCircuit {
    LayeredCircuit::new(vec![
        LibraLayer::new(vec![[0, 0, 1]], vec![]),
        LibraLayer::new(vec![[0, 0, 1]], vec![[1, 2, 3]]),
    ])
}

#[test]
fn test_circuit_builder() {
    let mut builder = Builder::default();
    let [a, b, c, d] = builder.input_n(4)[..] else { panic!("") };

    let ab = builder.add(&a, &b);
    let cd = builder.mul(&c, &d);
    builder.add(&ab, &cd);

    assert!(builder.to_layered_circuit().is_some());
}

#[test]
fn test_should_not_return_layered_circuit() {
    let mut builder = Builder::default();
    let [a, b, c, d, _e] = builder.input_n(5)[..] else { panic!("") };
    let ab = builder.add(&a, &b);
    let cd = builder.mul(&c, &d);
    builder.add(&ab, &cd);

    assert!(builder.to_layered_circuit().is_none());
}

#[test]
fn test_add_i_mul_i() {
    assert_eq!(*circuit().addi(0), vec![[0, 0, 1]]);
    assert!(circuit().muli(0).is_empty());
    assert_eq!(*circuit().addi(1), vec![[0, 0, 1]]);
    assert_eq!(*circuit().muli(1), vec![[1, 2, 3]]);
}

#[test]
fn layered_circuit_test_evaluate_layered_circuit() {
    let evaluations = circuit().evaluate(frs(&[1, 2, 3, 4]).as_slice());
    assert_eq!(evaluations, vec![frs(&[1, 2, 3, 4]), frs(&[3, 12]), frs(&[15])]);
}

#[test]
fn circuit_test_evaluate_layered_circuit() {
    let circuit = LayeredCircuit::new(vec![
        LibraLayer::new(vec![[0, 0, 1]], vec![]),
        LibraLayer::new(vec![[0, 0, 1]], vec![[1, 2, 3]]),
    ]);
    let evaluations = circuit.evaluate(frs(&[1, 2, 3, 4]).as_slice());
    assert_eq!(evaluations, vec![frs(&[1, 2, 3, 4]), frs(&[3, 12]), frs(&[15])]);
}

#[test]
fn built_circuit_evaluates_expression() {
    // (a + b) + (c * d) on 1, 2, 3, 4 gives 3 + 12 = 15
    let mut builder = Builder::default();
    let inputs = builder.input_n(4);
    let ab = builder.add(&inputs[0], &inputs[1]);
    let cd = builder.mul(&inputs[2], &inputs[3]);
    builder.add(&ab, &cd);
    let circuit = builder.to_layered_circuit().unwrap();
    let evaluations = circuit.evaluate(frs(&[1, 2, 3, 4]).as_slice());
    assert_eq!(evaluations.last().unwrap(), &frs(&[15]));
}

#[test]
fn builder_ids_count_up() {
    let mut builder = Builder::new();
    assert_eq!(builder.next_input_id(), 0);
    assert_eq!(builder.next_input_id(), 1);
    assert_eq!(builder.next_validation_id(), 0);
    assert_eq!(builder.next_validation_id(), 1);
}

#[test]
fn libra_layer_gates() {
    let mut layer = LibraLayer::empty();
    assert_eq!(layer.len(), 0);
    layer.add_gate([0, 0, 1]);
    layer.mul_gate([1, 1, 2]);
    assert_eq!(layer.len(), 2);
}
