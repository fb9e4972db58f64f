use gkr::circom_gkr::{constrain_witness, generate_intermediate_witness_values, prove_circom_gkr, verify_circom_gkr};
use gkr::field::Fp;
use gkr::r1cs::{Constraint, R1CSProgram, SymbolTable, Term};
use gkr::r1cs_circuit::ConstantMap;

const R: u64 = 18446744073709551557;
type Fr = Fp<R>;

fn fr(x: i64) -> Fr {
    Fr::from_i64(x)
}

fn x_square() -> R1CSProgram<R> {
    // x * x = a
    R1CSProgram::new(vec![Constraint::new(vec![Term(1, fr(1))], vec![Term(1, fr(1))], vec![Term(2, fr(1))])])
}

fn x_cube() -> R1CSProgram<R> {
    // x * x = a, a * x = b
    R1CSProgram::new(vec![
        Constraint::new(vec![Term(1, fr(1))], vec![Term(1, fr(1))], vec![Term(2, fr(1))]),
        Constraint::new(vec![Term(2, fr(1))], vec![Term(1, fr(1))], vec![Term(3, fr(1))]),
    ])
}

fn eq_3a_plus_5b() -> R1CSProgram<R> {
    // c = 3a + 5b + 10 over the witness [a, b, c, threea, fiveb] (index 0 is one):
    // 0 = 3a - threea, 0 = 5b - fiveb, 0 = 10 - c + threea + fiveb
    R1CSProgram::new(vec![
        Constraint::new(vec![], vec![], vec![Term(1, fr(3)), Term(4, fr(-1))]),
        Constraint::new(vec![], vec![], vec![Term(2, fr(5)), Term(5, fr(-1))]),
        Constraint::new(vec![], vec![], vec![Term(0, fr(10)), Term(3, fr(-1)), Term(4, fr(1)), Term(5, fr(1))]),
    ])
}

#[test]
fn proof_test_prove_verify_single_constraint() {
    let witness = vec![fr(2), fr(4)];
    let proof = prove_circom_gkr(x_square(), witness.clone()).unwrap();
    assert_eq!(verify_circom_gkr(x_square(), witness, proof).unwrap(), true);
}

#[test]
fn proof_test_prove_verify_single_constraint_invalid_witness() {
    let witness = vec![fr(3), fr(4)];
    let proof = prove_circom_gkr(x_square(), witness.clone()).unwrap();
    assert_eq!(verify_circom_gkr(x_square(), witness, proof).unwrap(), false);
}

#[test]
fn proof_test_prove_verify_x_cube() {
    let witness = vec![fr(3), fr(9), fr(27)];
    let proof = prove_circom_gkr(x_cube(), witness.clone()).unwrap();
    assert_eq!(verify_circom_gkr(x_cube(), witness, proof).unwrap(), true);
}

#[test]
fn proof_test_prove_verify_3a_plus_5b_plus_10() {
    let witness = vec![fr(2), fr(3), fr(31), fr(6), fr(15)];
    let proof = prove_circom_gkr(eq_3a_plus_5b(), witness.clone()).unwrap();
    assert_eq!(verify_circom_gkr(eq_3a_plus_5b(), witness, proof).unwrap(), true);
}

#[test]
fn circom_gkr_refuses_wrong_witness_length() {
    assert!(prove_circom_gkr(x_square(), vec![fr(2)]).is_err());
}

#[test]
fn intermediate_values_sum_their_terms() {
    let mut table = SymbolTable::<R>::new(2);
    let v = table.get_variable_index(Term(1, fr(2)), Term(2, fr(3)));
    assert_eq!(v, 3);
    let w = generate_intermediate_witness_values(vec![fr(5), fr(7)], &table).unwrap();
    assert_eq!(w, vec![fr(1), fr(5), fr(7), fr(31)]);
}

#[test]
fn constants_follow_the_witness() {
    let mut constants = ConstantMap::<R>::new();
    constants.insert(fr(1), 0);
    constants.insert(fr(0), 3);
    constants.insert(fr(-1), 4);
    let w = constrain_witness(vec![fr(1), fr(5), fr(7)], &constants);
    assert_eq!(w, vec![fr(1), fr(5), fr(7), fr(0), fr(-1)]);
}
