use gkr::field::Fp;
use gkr::r1cs::{
    move_term_to_slot, Constraint, EquationDirection, Operation, R1CSProgram, ReducedConstraint, SlotName,
    SymbolTable, Term,
};
use gkr::r1cs_circuit::{
    constraint_circuit, generate_constant_map, program_circuit, reduced_constraint_to_circuit_input, ConstantMap,
};

const R: u64 = 18446744073709551557;
type Fr = Fp<R>;

fn fr(x: i64) -> Fr {
    Fr::from_i64(x)
}

fn t(i: usize, v: i64) -> Term<R> {
    Term(i, fr(v))
}

fn term_negation() {
    let p1 = t(0, 2);
    assert_eq!(p1.negate(), t(0, -2));

    let p2 = t(0, -2);
    assert_eq!(p2.negate(), t(0, 2));
}

fn constraint_correct_operation_type() {
    let constraint = Constraint::new(vec![t(0, 1)], vec![t(1, 1)], vec![t(2, 1)]);
    assert_eq!(constraint.operation(), Operation::Mul);

    let constraint = Constraint::new(vec![t(0, 1), t(1, 1)], vec![], vec![t(2, 1)]);
    assert_eq!(constraint.operation(), Operation::Add);

    let constraint = Constraint::new(vec![], vec![t(0, 1)], vec![t(1, -1)]);
    assert_eq!(constraint.operation(), Operation::Add);

    let constraint = Constraint::new(vec![t(0, 1)], vec![t(1, 1)], vec![]);
    assert_eq!(constraint.operation(), Operation::Mul);
}

fn reduced_constraint_from_constraint() {
    let constraint = Constraint::new(vec![t(0, 1)], vec![t(0, 1)], vec![]);
    assert_eq!(constraint.can_simplify(), false);
    let reduced_constraint = ReducedConstraint::try_from(&constraint).unwrap();
    assert_eq!(
        reduced_constraint,
        ReducedConstraint { a: Some(t(0, 1)), b: Some(t(0, 1)), c: None, operation: Operation::Mul }
    );
}

fn can_rearrange() {
    let constraint = Constraint::new(vec![t(0, 1)], vec![], vec![]);
    assert_eq!(constraint.can_simplify(), false);
    assert_eq!(constraint.should_rearrange_terms(), false);

    let constraint = Constraint::new(vec![t(0, 1), t(1, 1), t(2, 1), t(3, 1)], vec![], vec![]);
    assert_eq!(constraint.can_simplify(), true);
    assert_eq!(constraint.should_rearrange_terms(), true);

    let constraint = Constraint::new(vec![t(0, 1), t(2, 1)], vec![t(1, 1)], vec![t(3, 1)]);
    assert_eq!(constraint.can_simplify(), true);
    assert_eq!(constraint.should_rearrange_terms(), false);

    let constraint = Constraint::new(vec![t(0, 1), t(1, 1), t(2, 1), t(3, 1)], vec![t(0, 1)], vec![]);
    assert_eq!(constraint.can_simplify(), true);
    assert_eq!(constraint.should_rearrange_terms(), false);
}

fn get_empty_slot() {
    let constraint = Constraint::new(vec![t(0, 1)], vec![], vec![]);
    let (empty_slot, slot_location) = constraint.get_empty_slot();
    assert_eq!(empty_slot.is_some(), true);
    assert_eq!(constraint.slot(empty_slot.unwrap()).len(), 0);
    assert_eq!(slot_location, EquationDirection::Left);

    let constraint = Constraint::new(vec![t(0, 1)], vec![t(0, 1)], vec![]);
    let (empty_slot, slot_location) = constraint.get_empty_slot();
    assert_eq!(empty_slot.is_some(), true);
    assert_eq!(constraint.slot(empty_slot.unwrap()).len(), 0);
    assert_eq!(slot_location, EquationDirection::Right);

    let constraint = Constraint::new(vec![t(0, 1)], vec![t(0, 1)], vec![t(0, 2)]);
    let (empty_slot, _) = constraint.get_empty_slot();
    assert_eq!(empty_slot.is_none(), true);
}

fn get_movable_term() {
    let mut constraint = Constraint::new(vec![t(0, 1), t(1, 1), t(2, 1), t(3, 1)], vec![], vec![t(2, 1), t(3, 1)]);

    let (movable_item, slot_location) = constraint.get_movable_term();
    assert_eq!(movable_item.unwrap(), t(3, 1));
    assert_eq!(slot_location, EquationDirection::Left);

    let (movable_item, slot_location) = constraint.get_movable_term();
    assert_eq!(movable_item.unwrap(), t(2, 1));
    assert_eq!(slot_location, EquationDirection::Left);

    let (movable_item, slot_location) = constraint.get_movable_term();
    assert_eq!(movable_item.unwrap(), t(1, 1));
    assert_eq!(slot_location, EquationDirection::Left);

    let (movable_item, slot_location) = constraint.get_movable_term();
    assert_eq!(movable_item.unwrap(), t(3, 1));
    assert_eq!(slot_location, EquationDirection::Right);

    let (movable_item, _) = constraint.get_movable_term();
    assert_eq!(movable_item.is_some(), false);
}

#[test]
fn constraint_test_term_negation() {
    term_negation();
}

#[test]
fn mod_test_term_negation() {
    term_negation();
}

#[test]
fn constraint_test_constraint_correct_operation_type() {
    constraint_correct_operation_type();
}

#[test]
fn mod_test_constraint_correct_operation_type() {
    constraint_correct_operation_type();
}

#[test]
fn constraint_test_reduced_constraint_from_constraint() {
    reduced_constraint_from_constraint();
}

#[test]
fn mod_test_reduced_constraint_from_constraint() {
    reduced_constraint_from_constraint();
}

#[test]
fn constraint_test_can_rearrange() {
    can_rearrange();
}

#[test]
fn mod_test_can_rearrange() {
    can_rearrange();
}

#[test]
fn constraint_test_get_empty_slot() {
    get_empty_slot();
}

#[test]
fn mod_test_get_empty_slot() {
    get_empty_slot();
}

#[test]
fn constraint_test_get_movable_term() {
    get_movable_term();
}

#[test]
fn mod_test_get_movable_term() {
    get_movable_term();
}

#[test]
fn test_get_mergeable_items() {
    let mut constraint = Constraint::new(vec![t(0, 2), t(1, 1), t(2, 1), t(3, 1)], vec![], vec![t(2, 1), t(3, 1)]);

    let (extra_terms, slot) = constraint.get_mergeable_terms().unwrap();
    assert_eq!(extra_terms[0], t(3, 1));
    assert_eq!(extra_terms[1], t(2, 1));
    assert_eq!(constraint.slot(slot).len(), 2);

    let (extra_terms, slot) = constraint.get_mergeable_terms().unwrap();
    assert_eq!(extra_terms[0], t(1, 1));
    assert_eq!(extra_terms[1], t(0, 2));
    assert_eq!(constraint.slot(slot).len(), 0);

    let (extra_terms, slot) = constraint.get_mergeable_terms().unwrap();
    assert_eq!(extra_terms[0], t(3, 1));
    assert_eq!(extra_terms[1], t(2, 1));
    assert_eq!(constraint.slot(slot).len(), 0);

    assert_eq!(constraint.get_mergeable_terms().is_none(), true);
}

#[test]
fn test_move_to_slot() {
    let mut slot = vec![];
    move_term_to_slot(t(0, 1), &mut slot, true);
    assert_eq!(slot.len(), 1);
    assert_eq!(slot[0], t(0, 1));

    let mut slot = vec![];
    move_term_to_slot(t(0, 2), &mut slot, false);
    assert_eq!(slot.len(), 1);
    assert_eq!(slot[0], t(0, -2));
}

#[test]
fn test_rearrange_constraint() {
    let mut constraint = Constraint::new(vec![t(0, 1), t(1, 1), t(2, -5), t(3, 1)], vec![], vec![]);

    constraint.rearrange_terms();

    assert_eq!(constraint.a, vec![t(0, 1), t(1, 1)]);
    assert_eq!(constraint.b, vec![t(3, 1)]);
    assert_eq!(constraint.c, vec![t(2, 5)]);
    assert_eq!(constraint.operation(), Operation::Add);
}

#[test]
fn test_reduce_to_multiple_constraint() {
    // -s3 * (s1 + s2) = 5 - out + s1 + s2
    let constraint = Constraint::new(
        vec![t(3, -1)],
        vec![t(1, 1), t(2, 1)],
        vec![t(0, 5), t(4, -1), t(1, 1), t(2, 1)],
    );
    assert_eq!(constraint.max_index(), 4);

    let mut symbol_table = SymbolTable::<R>::new(4);
    let reduced_constraints = constraint.reduce(&mut symbol_table);

    assert_eq!(reduced_constraints.len(), 5);
    assert_eq!(
        reduced_constraints[0],
        ReducedConstraint { a: Some(t(1, 1)), b: Some(t(2, 1)), c: Some(t(5, 1)), operation: Operation::Add }
    );
    assert_eq!(
        reduced_constraints[1],
        ReducedConstraint { a: Some(t(1, 1)), b: Some(t(2, 1)), c: Some(t(5, 1)), operation: Operation::Add }
    );
    assert_eq!(
        reduced_constraints[2],
        ReducedConstraint { a: Some(t(4, -1)), b: Some(t(5, 1)), c: Some(t(6, 1)), operation: Operation::Add }
    );
    assert_eq!(
        reduced_constraints[3],
        ReducedConstraint { a: Some(t(0, 5)), b: Some(t(6, 1)), c: Some(t(7, 1)), operation: Operation::Add }
    );
    assert_eq!(
        reduced_constraints[4],
        ReducedConstraint { a: Some(t(3, -1)), b: Some(t(5, 1)), c: Some(t(7, 1)), operation: Operation::Mul }
    );
}

#[test]
fn symbol_table_reuses_known_pairs() {
    let mut table = SymbolTable::<R>::new(10);
    assert_eq!(table.get_variable_index(t(1, 1), t(2, 1)), 11);
    assert_eq!(table.get_variable_index(t(1, 1), t(3, 1)), 12);
    assert_eq!(table.get_variable_index(t(1, 1), t(2, 1)), 11);
    assert_eq!(table.variable_count(), 2);
    assert_eq!(table.last_index(), 12);
}

fn quadratic_checker_circuit() -> R1CSProgram<R> {
    let constraints = vec![
        Constraint::new(vec![t(2, -1)], vec![t(2, 1)], vec![t(7, -1)]),
        Constraint::new(vec![t(3, -1)], vec![t(7, 1)], vec![t(8, -1)]),
        Constraint::new(vec![t(4, -1)], vec![t(2, 1)], vec![t(9, -1)]),
        Constraint::new(vec![], vec![], vec![t(8, 1), t(9, 1), t(10, -1)]),
        Constraint::new(vec![], vec![], vec![t(5, 1), t(10, 1), t(12, -1)]),
        Constraint::new(vec![], vec![], vec![t(6, 1), t(13, -1)]),
        Constraint::new(vec![], vec![], vec![t(1, -1), t(11, 1)]),
        Constraint::new(vec![], vec![], vec![t(12, -1), t(13, 1), t(15, -1)]),
        Constraint::new(vec![], vec![], vec![t(11, -1), t(14, 1)]),
        Constraint::new(vec![t(15, 1)], vec![t(16, 1)], vec![t(0, 1), t(14, -1)]),
        Constraint::new(vec![t(15, 1)], vec![t(14, 1)], vec![]),
    ];
    R1CSProgram::new(constraints)
}

fn eq_3a_plus_5b() -> R1CSProgram<R> {
    let constraints = vec![
        Constraint::new(vec![], vec![], vec![t(2, 3), t(4, -1)]),
        Constraint::new(vec![], vec![], vec![t(3, 5), t(5, -1)]),
        Constraint::new(vec![], vec![], vec![t(1, -1), t(4, 1), t(5, 1)]),
    ];
    R1CSProgram::new(constraints)
}

fn x_cube() -> R1CSProgram<R> {
    R1CSProgram::new(vec![
        Constraint::new(vec![t(1, 1)], vec![t(1, 1)], vec![t(2, 1)]),
        Constraint::new(vec![t(2, 1)], vec![t(1, 1)], vec![t(3, 1)]),
    ])
}

#[test]
fn test_get_last_variable_index() {
    let quadratic_program = quadratic_checker_circuit();
    assert_eq!(quadratic_program.get_last_variable_index(), 16);
}

#[test]
fn test_compile_program() {
    let quadratic_program = quadratic_checker_circuit();
    let (compiled_program, _) = quadratic_program.compile();
    assert_eq!(compiled_program.len(), 12);

    let program = eq_3a_plus_5b();
    let (compiled_program, _) = program.compile();
    assert_eq!(compiled_program.len(), 3);
}

#[test]
fn circuit_test_generate_constant_map() {
    let program = R1CSProgram::new(vec![Constraint::new(vec![t(0, 1), t(1, -1), t(2, -5), t(3, 1)], vec![], vec![])]);

    let (reduced_constraints, symbol_table) = program.compile();
    assert_eq!(reduced_constraints.len(), 2);
    assert_eq!(symbol_table.variable_count(), 1);

    let constant_map = generate_constant_map(reduced_constraints.as_slice(), symbol_table.last_variable_index);

    assert_eq!(constant_map.len(), 4);
    assert_eq!(constant_map.get(&fr(1)).unwrap(), 0);
    assert_eq!(constant_map.get(&fr(0)).unwrap(), 5);
    assert_eq!(constant_map.get(&fr(-1)).unwrap(), 6);
    assert_eq!(constant_map.get(&fr(5)).unwrap(), 7);
}

fn small_constant_map() -> ConstantMap<R> {
    let mut constant_map = ConstantMap::new();
    constant_map.insert(fr(0), 0);
    constant_map.insert(fr(1), 1);
    constant_map.insert(fr(2), 2);
    constant_map
}

#[test]
fn circuit_test_reduced_constraint_to_circuit_input() {
    let constant_map = small_constant_map();

    // ? + b = c
    let r1 = ReducedConstraint { a: None, b: Some(t(2, 1)), c: Some(t(3, 2)), operation: Operation::Add };
    assert_eq!(reduced_constraint_to_circuit_input(&r1, &constant_map), [(0, 0), (2, 1), (3, 2)]);

    // ? * b = c
    let r2 = ReducedConstraint { a: None, b: Some(t(2, 1)), c: Some(t(3, 2)), operation: Operation::Mul };
    assert_eq!(reduced_constraint_to_circuit_input(&r2, &constant_map), [(1, 1), (2, 1), (3, 2)]);

    // a * b = ?
    let r3 = ReducedConstraint { a: Some(t(2, 1)), b: Some(t(3, 2)), c: None, operation: Operation::Mul };
    assert_eq!(reduced_constraint_to_circuit_input(&r3, &constant_map), [(2, 1), (3, 2), (0, 0)]);

    // a + b = ?
    let r4 = ReducedConstraint { a: Some(t(2, 1)), b: Some(t(3, 2)), c: None, operation: Operation::Add };
    assert_eq!(reduced_constraint_to_circuit_input(&r4, &constant_map), [(2, 1), (3, 2), (0, 0)]);
}

#[test]
fn test_constraint_circuit_evaluation() {
    let mut constant_map = ConstantMap::new();
    constant_map.insert(fr(1), 0);
    constant_map.insert(fr(0), 4);
    constant_map.insert(fr(-1), 5);
    let constraint = ReducedConstraint { a: Some(t(1, 1)), b: Some(t(2, 1)), c: Some(t(3, 1)), operation: Operation::Mul };

    let circuit = constraint_circuit(&constraint, &constant_map, 0);

    let bad_evaluation_result = circuit.evaluate(vec![fr(1), fr(3), fr(3), fr(6), fr(0), fr(-1)]).unwrap();
    let mut result_iter = bad_evaluation_result.iter().rev();
    result_iter.next();
    assert_eq!(result_iter.next().unwrap(), &vec![fr(3), fr(3), fr(6), fr(-1)]);
    assert_eq!(result_iter.next().unwrap(), &vec![fr(9), fr(-6)]);
    assert_eq!(result_iter.next().unwrap(), &vec![fr(3)]);

    let correct_evaluation_result = circuit.evaluate(vec![fr(1), fr(2), fr(3), fr(6), fr(0), fr(-1)]).unwrap();
    let mut result_iter = correct_evaluation_result.iter().rev();
    result_iter.next();
    assert_eq!(result_iter.next().unwrap(), &vec![fr(2), fr(3), fr(6), fr(-1)]);
    assert_eq!(result_iter.next().unwrap(), &vec![fr(6), fr(-6)]);
    assert_eq!(result_iter.next().unwrap(), &vec![fr(0)]);
}

#[test]
fn test_program_circuit() {
    let circuit = program_circuit(x_cube()).0;
    let evaluation = circuit.evaluate(vec![fr(1), fr(2), fr(4), fr(8), fr(0), fr(-1)]).unwrap();
    assert_eq!(evaluation[0], vec![fr(0), fr(0)]);
}

#[test]
fn program_circuit_rejects_a_wrong_witness() {
    // x = 2 but a claimed 5: the first output is not zero
    let circuit = program_circuit(x_cube()).0;
    let evaluation = circuit.evaluate(vec![fr(1), fr(2), fr(5), fr(10), fr(0), fr(-1)]).unwrap();
    assert_ne!(evaluation[0][0], fr(0));
}

#[test]
fn slot_names_reach_the_slots() {
    let constraint = Constraint::new(vec![t(1, 1)], vec![t(2, 1)], vec![t(3, 1)]);
    assert_eq!(*constraint.slot(SlotName::A), vec![t(1, 1)]);
    assert_eq!(*constraint.slot(SlotName::B), vec![t(2, 1)]);
    assert_eq!(*constraint.slot(SlotName::C), vec![t(3, 1)]);
    assert_eq!(constraint.terms_count(), 3);
}

#[test]
fn compiled_sum_constraint_is_checked_by_its_circuit() {
    // x1 + x2 + x3 = x4: x3 moves to B, then x1 + x2 becomes the new variable 5
    let program = R1CSProgram::new(vec![Constraint::new(vec![t(1, 1), t(2, 1), t(3, 1)], vec![], vec![t(4, 1)])]);
    let (circuit, constant_map, symbol_table) = program_circuit(program);
    assert_eq!(symbol_table.last_index(), 5);
    assert_eq!(constant_map.get(&fr(0)).unwrap(), 6);
    assert_eq!(constant_map.get(&fr(-1)).unwrap(), 7);
    // witness: [1, x1, x2, x3, x4, x1 + x2, 0, -1]
    let good = circuit.evaluate(vec![fr(1), fr(2), fr(3), fr(4), fr(9), fr(5), fr(0), fr(-1)]).unwrap();
    assert!(good[0].iter().all(|v| *v == fr(0)));
    let bad = circuit.evaluate(vec![fr(1), fr(2), fr(3), fr(4), fr(10), fr(5), fr(0), fr(-1)]).unwrap();
    assert!(!bad[0].iter().all(|v| *v == fr(0)));
}
