use gkr::bits::selector_to_index;
use gkr::field::Fp;
use gkr::multilinear::{mapping_instruction_from_variable_presence, to_power_of_two, MultiLinearPolynomial};
use std::collections::BTreeMap;

type Fq = Fp<17>;
type Poly = MultiLinearPolynomial<17>;

fn fq(x: i64) -> Fq {
    Fq::from_i64(x)
}

fn fq_from_vec(values: Vec<i64>) -> Vec<Fq> {
    values.into_iter().map(fq).collect()
}

fn fq_map_from_vec(values: Vec<i64>) -> BTreeMap<usize, Fq> {
    let mut result = BTreeMap::new();
    for (index, val) in values.into_iter().enumerate() {
        if val != 0 {
            result.insert(index, fq(val));
        }
    }
    result
}

fn poly_5ab_7bc_8d() -> Poly {
    MultiLinearPolynomial::new(
        4,
        vec![
            (fq(5), vec![true, true, false, false]),
            (fq(7), vec![false, true, true, false]),
            (fq(8), vec![false, false, false, true]),
        ],
    )
    .unwrap()
}

#[test]
fn multilinear_poly_test_polynomial_instantiation() {
    assert_eq!(
        Poly::new(2, vec![(fq(2), vec![true, true])]).unwrap().coefficients(),
        BTreeMap::from([(3, fq(2))])
    );

    assert_eq!(
        Poly::new(
            2,
            vec![(fq(2), vec![true, false]), (fq(3), vec![false, true]), (fq(5), vec![true, true])]
        )
        .unwrap()
        .coefficients(),
        BTreeMap::from([(1, fq(2)), (2, fq(3)), (3, fq(5))])
    );

    assert_eq!(
        Poly::new(2, vec![(fq(5), vec![false, false])]).unwrap().coefficients(),
        BTreeMap::from([(0, fq(5))])
    );

    assert_eq!(
        Poly::new(
            2,
            vec![(fq(2), vec![true, true]), (fq(3), vec![true, true]), (fq(4), vec![false, true])]
        )
        .unwrap()
        .coefficients(),
        BTreeMap::from([(2, fq(4)), (3, fq(5))])
    );
}

#[test]
fn multilinear_poly_test_polynomial_instantiation_invalid_variables() {
    assert_eq!(Poly::new(3, vec![(fq(2), vec![true, true])]).is_err(), true);
}

#[test]
fn multilinear_poly_test_selector_to_index() {
    assert_eq!(selector_to_index(&[false, false, false, false]), 0);
    assert_eq!(selector_to_index(&[true, false, false, false]), 1);
    assert_eq!(selector_to_index(&[false, true, false, false]), 2);
    assert_eq!(selector_to_index(&[true, true, false, true]), 11);
}

#[test]
fn multilinear_poly_test_get_variable_indexes() {
    assert_eq!(Poly::get_variable_indexes(4, &[false, false, false, false]).is_err(), true);
    assert_eq!(Poly::get_variable_indexes(4, &[true, false, true, false]).is_err(), true);
    assert_eq!(
        Poly::get_variable_indexes(4, &[true, false, false, false]).unwrap(),
        vec![1, 3, 5, 7, 9, 11, 13, 15]
    );
    assert_eq!(
        Poly::get_variable_indexes(4, &[false, true, false, false]).unwrap(),
        vec![2, 3, 6, 7, 10, 11, 14, 15]
    );
    assert_eq!(
        Poly::get_variable_indexes(4, &[false, false, true, false]).unwrap(),
        vec![4, 5, 6, 7, 12, 13, 14, 15]
    );
    assert_eq!(
        Poly::get_variable_indexes(4, &[false, false, false, true]).unwrap(),
        vec![8, 9, 10, 11, 12, 13, 14, 15]
    );
}

#[test]
fn multilinear_poly_test_empty_partial_evaluation() {
    let p = poly_5ab_7bc_8d();
    let p_eval = poly_5ab_7bc_8d().partial_evaluate(&[]).unwrap();
    assert_eq!(p, p_eval);
}

#[test]
fn multilinear_poly_test_partial_eval_happy_path() {
    let p_13_4c_8d = poly_5ab_7bc_8d()
        .partial_evaluate(&[(vec![false, true, false, false], fq(3)), (vec![true, false, false, false], fq(2))])
        .unwrap();
    assert_eq!(
        p_13_4c_8d.coefficients(),
        fq_map_from_vec(vec![13, 0, 0, 0, 4, 0, 0, 0, 8, 0, 0, 0, 0, 0, 0, 0])
    );

    let p_21_8d = p_13_4c_8d.partial_evaluate(&[(vec![false, false, true, false], fq(2))]).unwrap();
    assert_eq!(
        p_21_8d.coefficients(),
        fq_map_from_vec(vec![4, 0, 0, 0, 0, 0, 0, 0, 8, 0, 0, 0, 0, 0, 0, 0])
    );
}

#[test]
fn multilinear_poly_test_partial_eval_assign_all() {
    let eval = poly_5ab_7bc_8d()
        .partial_evaluate(&[
            (vec![true, false, false, false], fq(2)),
            (vec![false, true, false, false], fq(4)),
            (vec![false, false, true, false], fq(3)),
            (vec![false, false, false, true], fq(5)),
        ])
        .unwrap();
    assert_eq!(eval.coefficients(), fq_map_from_vec(vec![11, 0, 0, 0, 0, 0, 0, 0, 0, 0, 0, 0, 0, 0, 0, 0]));
}

#[test]
fn multilinear_poly_test_partial_eval_repeated_assignment() {
    let eval = poly_5ab_7bc_8d()
        .partial_evaluate(&[
            (vec![true, false, false, false], fq(2)),
            (vec![true, false, false, false], fq(3)),
            (vec![false, true, false, false], fq(4)),
            (vec![false, false, true, false], fq(3)),
            (vec![false, false, false, true], fq(5)),
        ])
        .unwrap();
    assert_eq!(eval.coefficients(), fq_map_from_vec(vec![11, 0, 0, 0, 0, 0, 0, 0, 0, 0, 0, 0, 0, 0, 0, 0]));
}

#[test]
fn multilinear_poly_test_evaluation_incomplete_assignment() {
    let p = poly_5ab_7bc_8d();
    assert_eq!(p.evaluate(&[fq(4)]).is_err(), true);
}

#[test]
fn multilinear_poly_test_evaluation_happy_path() {
    let p = poly_5ab_7bc_8d();
    let eval = p.evaluate(&fq_from_vec(vec![2, 4, 3, 5])).unwrap();
    assert_eq!(eval, fq(11));
}

#[test]
fn evaluation_ignores_values_past_the_variables() {
    let p = poly_5ab_7bc_8d();
    let extra = p.evaluate(&fq_from_vec(vec![2, 3, 4, 5, 6])).unwrap();
    assert_eq!(extra, p.evaluate(&fq_from_vec(vec![2, 3, 4, 5])).unwrap());
    assert_eq!(extra, fq(1));
    assert_eq!(p.evaluate(&fq_from_vec(vec![2, 4, 3, 5, 6])).unwrap(), fq(11));
}

#[test]
fn multilinear_poly_test_polynomial_addition() {
    let p = poly_5ab_7bc_8d();
    let q = poly_5ab_7bc_8d();
    let sum = p.add(&q).unwrap();
    assert_eq!(sum.coefficients(), fq_map_from_vec(vec![0, 0, 0, 10, 0, 0, 14, 0, 16, 0, 0, 0, 0, 0, 0, 0]));
}

#[test]
fn multilinear_poly_test_scalar_multiplication() {
    let p = poly_5ab_7bc_8d();
    let two_p = p.scalar_multiply(&fq(2));
    assert_eq!(two_p.coefficients(), fq_map_from_vec(vec![0, 0, 0, 10, 0, 0, 14, 0, 16, 0, 0, 0, 0, 0, 0, 0]));

    let p = poly_5ab_7bc_8d();
    let scalar_poly = Poly::new(0, vec![(fq(2), vec![])]).unwrap();
    let two_p = p.mul(&scalar_poly);
    assert_eq!(two_p.coefficients(), fq_map_from_vec(vec![0, 0, 0, 10, 0, 0, 14, 0, 16, 0, 0, 0, 0, 0, 0, 0]));
}

#[test]
fn multilinear_poly_test_multilinear_poly_multiplication() {
    let p = Poly::new(2, vec![(fq(5), vec![true, true])]).unwrap();
    let q = Poly::new(1, vec![(fq(6), vec![true])]).unwrap();
    let pq = p.mul(&q);
    assert_eq!(pq.n_vars(), 3);
    assert_eq!(pq.coefficients(), fq_map_from_vec(vec![0, 0, 0, 0, 0, 0, 0, 30]));

    let p = Poly::new(3, vec![(fq(3), vec![true, false, true]), (fq(2), vec![true, true, false])]).unwrap();
    let q = Poly::new(2, vec![(fq(7), vec![true, true])]).unwrap();
    let pq = p.mul(&q);
    assert_eq!(pq.n_vars(), 5);

    let mut expected_coefficients = vec![0; 32];
    expected_coefficients[27] = 14;
    expected_coefficients[29] = 21;
    assert_eq!(pq.coefficients(), fq_map_from_vec(expected_coefficients));
}

#[test]
fn multilinear_poly_test_crazy_multilinear_poly_multiplication() {
    let p = Poly::new(
        4,
        vec![
            (fq(2), vec![true, false, false, false]),
            (fq(3), vec![false, true, true, false]),
            (fq(6), vec![false, false, false, true]),
        ],
    )
    .unwrap();
    let q = Poly::new(
        4,
        vec![
            (fq(4), vec![true, false, false, false]),
            (fq(5), vec![false, true, true, false]),
            (fq(2), vec![false, false, false, true]),
        ],
    )
    .unwrap();

    let pq = p.mul(&q);
    assert_eq!(pq.n_vars(), 8);

    let mut expected_coefficients = vec![0; 256];
    expected_coefficients[17] = 8;
    expected_coefficients[97] = 10;
    expected_coefficients[129] = 4;
    expected_coefficients[22] = 12;
    expected_coefficients[102] = 15;
    expected_coefficients[134] = 6;
    expected_coefficients[24] = 24;
    expected_coefficients[104] = 30;
    expected_coefficients[136] = 12;
    assert_eq!(pq.coefficients(), fq_map_from_vec(expected_coefficients));
}

#[test]
fn multilinear_poly_test_3_multilinear_multiplication() {
    let p = Poly::new(2, vec![(fq(2), vec![true, false]), (fq(3), vec![false, true])]).unwrap();
    let q = Poly::new(1, vec![(fq(4), vec![true])]).unwrap();
    let r = Poly::new(1, vec![(fq(5), vec![true])]).unwrap();

    let result = p.mul(&q).mul(&r);

    let mut expected_coefficients = vec![0; 16];
    expected_coefficients[13] = 40;
    expected_coefficients[14] = 60;
    assert_eq!(result.coefficients(), fq_map_from_vec(expected_coefficients));
}

#[test]
fn multilinear_poly_test_multiplicative_identity() {
    let p = poly_5ab_7bc_8d();
    let mult_identity = Poly::multiplicative_identity();
    let r = p.mul(&mult_identity);
    assert_eq!(p, r);
}

#[test]
fn multilinear_poly_test_additive_identity() {
    let p = poly_5ab_7bc_8d();
    let add_identity = Poly::additive_identity();
    let r = p.add(&add_identity).unwrap();
    assert_eq!(p, r);
}

#[test]
fn multilinear_poly_test_check_zero() {
    let zero_checker = Poly::check_zero();
    assert_eq!(zero_checker.evaluate(&[Fq::zero()]).unwrap(), Fq::one());
    assert_eq!(zero_checker.evaluate(&[Fq::one()]).unwrap(), Fq::zero());
    assert_eq!(zero_checker.evaluate(&[fq(5)]).unwrap(), fq(4).neg());
}

#[test]
fn multilinear_poly_test_check_one() {
    let one_checker = Poly::check_one();
    assert_eq!(one_checker.evaluate(&[Fq::zero()]).unwrap(), Fq::zero());
    assert_eq!(one_checker.evaluate(&[Fq::one()]).unwrap(), Fq::one());
    assert_eq!(one_checker.evaluate(&[fq(20)]).unwrap(), fq(20));
}

#[test]
fn multilinear_poly_test_lagrange_basis_polynomial() {
    let five_checker = Poly::lagrange_basis_poly(5, 3);
    assert_eq!(five_checker.n_vars(), 3);
    let points = [[0, 0, 0], [0, 0, 1], [0, 1, 0], [0, 1, 1], [1, 0, 0], [1, 0, 1], [1, 1, 0], [1, 1, 1]];
    for point in points.iter() {
        let expected = if *point == [1, 0, 1] { Fq::one() } else { Fq::zero() };
        assert_eq!(five_checker.evaluate(&fq_from_vec(point.to_vec())).unwrap(), expected);
    }
}

#[test]
fn multilinear_poly_test_interpolation() {
    let poly = Poly::interpolate(&fq_from_vec(vec![2, 4, 8, 3]));
    assert_eq!(poly.n_vars(), 2);

    let mut expected_coefficients = vec![0; 4];
    expected_coefficients[0] = 2;
    expected_coefficients[1] = 6;
    expected_coefficients[2] = 2;
    expected_coefficients[3] = -7;
    assert_eq!(poly.coefficients(), fq_map_from_vec(expected_coefficients));

    assert_eq!(poly.evaluate(&fq_from_vec(vec![0, 0])).unwrap(), fq(2));
    assert_eq!(poly.evaluate(&fq_from_vec(vec![0, 1])).unwrap(), fq(4));
    assert_eq!(poly.evaluate(&fq_from_vec(vec![1, 0])).unwrap(), fq(8));
    assert_eq!(poly.evaluate(&fq_from_vec(vec![1, 1])).unwrap(), fq(3));
}

#[test]
fn test_variable_presence_vector() {
    let poly = Poly::new(3, vec![(fq(3), vec![true, false, false]), (fq(2), vec![false, false, true])]).unwrap();
    assert_eq!(poly.variable_presence_vector(), vec![true, false, true]);
}

#[test]
fn test_mapping_instruction_from_variable_presence() {
    assert_eq!(mapping_instruction_from_variable_presence(&[true, false, false, true]), vec![(3, 1)]);
    assert_eq!(
        mapping_instruction_from_variable_presence(&[true, false, false, true, true]),
        vec![(3, 1), (4, 2)]
    );
    assert_eq!(
        mapping_instruction_from_variable_presence(&[false, false, true, true]),
        vec![(2, 0), (3, 1)]
    );
    assert_eq!(mapping_instruction_from_variable_presence(&[true, true]), vec![]);
    assert_eq!(mapping_instruction_from_variable_presence(&[false, false]), vec![]);
    assert_eq!(
        to_power_of_two(mapping_instruction_from_variable_presence(&[false, true, false, false, true, false])),
        vec![(2, 1), (16, 2)]
    );
}

#[test]
fn test_poly_relabelling() {
    let p = Poly::new(
        4,
        vec![
            (fq(2), vec![true, true, false, false]),
            (fq(3), vec![false, false, true, true]),
            (fq(5), vec![true, false, true, true]),
            (fq(6), vec![false, true, false, true]),
        ],
    )
    .unwrap();

    let q = p
        .partial_evaluate(&[(vec![false, true, false, false], Fq::one()), (vec![false, false, true, false], Fq::one())])
        .unwrap();

    assert_eq!(q.n_vars(), 4);
    assert_eq!(q.coefficients(), BTreeMap::from([(1, fq(2)), (8, fq(9)), (9, fq(5))]));

    let q = q.relabel();
    assert_eq!(q.n_vars(), 2);
    assert_eq!(q.coefficients(), BTreeMap::from([(1, fq(2)), (2, fq(9)), (3, fq(5))]));

    let poly = Poly::multiplicative_identity();
    let poly = poly.relabel();
    assert_eq!(poly, Poly::multiplicative_identity());
}

#[test]
fn test_bit_string_checker() {
    let checker = Poly::bit_string_checker("001".to_string());
    let points = [[0, 0, 0], [0, 0, 1], [0, 1, 0], [0, 1, 1], [1, 0, 0], [1, 0, 1], [1, 1, 0], [1, 1, 1]];
    for point in points.iter() {
        let expected = if *point == [0, 0, 1] { fq(1) } else { fq(0) };
        assert_eq!(checker.evaluate(&fq_from_vec(point.to_vec())).unwrap(), expected);
    }
}

#[test]
fn test_evaluate_zero_poly() {
    let zero_poly = Poly::additive_identity();
    assert_eq!(zero_poly.evaluate(&[]).unwrap(), fq(0));
}

#[test]
fn polynomial_bytes_and_new_with_coefficient() {
    let p = Poly::new_with_coefficient(2, BTreeMap::from([(3, fq(5))])).unwrap();
    assert_eq!(p.to_bytes(), vec![0, 0, 0, 2, 0, 0, 0, 0, 0, 0, 0, 3, 0, 0, 0, 0, 0, 0, 0, 5]);
    // a key beyond two variables is refused
    assert!(Poly::new_with_coefficient(2, BTreeMap::from([(4, fq(1))])).is_err());
}

#[test]
fn partial_evaluation_rejects_bad_selectors() {
    let p = poly_5ab_7bc_8d();
    assert!(p.partial_evaluate(&[(vec![true, true, false, false], fq(1))]).is_err());
    assert!(p.partial_evaluate(&[(vec![true, false], fq(1))]).is_err());
}

#[test]
fn interpolation_agrees_with_values_on_the_hypercube() {
    let values = fq_from_vec(vec![3, 1, 4, 1, 5, 9, 2, 6]);
    let poly = Poly::interpolate(&values);
    assert_eq!(poly.n_vars(), 3);
    // value i sits at the point whose first variable is the highest bit of i
    for (i, v) in values.iter().enumerate() {
        let point: Vec<Fq> = (0..3).map(|k| fq(((i >> (2 - k)) & 1) as i64)).collect();
        assert_eq!(poly.evaluate(&point).unwrap(), *v);
    }
}
