use gkr::field::Fp;
use gkr::multilinear::MultiLinearPolynomial;
use gkr::univariate::{Polynomial, UnivariatePolynomial};

type Fq = Fp<17>;

fn fq(x: i64) -> Fq {
    Fq::from_i64(x)
}

fn fq_from_vec(values: Vec<i64>) -> Vec<Fq> {
    values.into_iter().map(fq).collect()
}

fn poly_from_vec(coefficients: Vec<i64>) -> UnivariatePolynomial<17> {
    UnivariatePolynomial::new(fq_from_vec(coefficients))
}

fn poly_zero() -> UnivariatePolynomial<17> {
    poly_from_vec(vec![])
}

fn dense_from_vec(coefficients: Vec<i64>) -> Polynomial<17> {
    Polynomial::new(fq_from_vec(coefficients))
}

fn dense_zero() -> Polynomial<17> {
    dense_from_vec(vec![])
}

#[test]
fn univariate_poly_test_evaluation() {
    let p = poly_from_vec(vec![0, 2]);
    assert_eq!(p.evaluate(&fq(4)), fq(8));
}

#[test]
fn univariate_poly_test_polynomial_addition() {
    assert_eq!(poly_zero().add(&poly_zero()), poly_zero());
    assert_eq!(poly_zero().add(&poly_from_vec(vec![0, 2])), poly_from_vec(vec![0, 2]));
    assert_eq!(poly_from_vec(vec![0, 2]).add(&poly_zero()), poly_from_vec(vec![0, 2]));

    let p = poly_from_vec(vec![4, 3, 2]);
    let q = poly_from_vec(vec![3, 4, 0, 4]);
    let p_plus_q = p.add(&q);
    let q_plus_p = q.add(&p);
    assert_eq!(p_plus_q, q_plus_p);
    assert_eq!(p_plus_q, poly_from_vec(vec![7, 7, 2, 4]));
}

#[test]
fn univariate_poly_test_polynomial_multiplication() {
    assert_eq!(poly_zero().mul(&poly_from_vec(vec![0, 2])), poly_from_vec(vec![]));
    assert_eq!(poly_from_vec(vec![0, 2]).mul(&poly_zero()), poly_from_vec(vec![]));

    let p = poly_from_vec(vec![4, 3, 2]);
    let q = poly_from_vec(vec![3, 4, 0, 4]);
    let p_mul_q = p.mul(&q);
    let q_mul_p = q.mul(&p);
    assert_eq!(p_mul_q, q_mul_p);
    assert_eq!(p_mul_q, poly_from_vec(vec![12, 25, 18, 24, 12, 8]));
}

#[test]
fn univariate_poly_test_polynomial_interpolation() {
    let p = UnivariatePolynomial::interpolate_xy(fq_from_vec(vec![0, 1]), fq_from_vec(vec![0, 2]));
    assert_eq!(p, poly_from_vec(vec![0, 2]));

    let p = UnivariatePolynomial::interpolate_xy(fq_from_vec(vec![0, 1, 2]), fq_from_vec(vec![5, 7, 13]));
    assert_eq!(p, poly_from_vec(vec![5, 0, 2]));

    let p = UnivariatePolynomial::interpolate_xy(
        fq_from_vec(vec![0, 1, 3, 4, 5, 8]),
        fq_from_vec(vec![12, 48, 3150, 11772, 33452, 315020]),
    );
    assert_eq!(p, poly_from_vec(vec![12, 25, 18, 24, 12, 8]));

    let p = UnivariatePolynomial::interpolate_xy(
        fq_from_vec(vec![5, 7, 9, 1]),
        fq_from_vec(vec![565, 1631, 3537, -7]),
    );
    assert_eq!(p, poly_from_vec(vec![0, -12, 0, 5]));
}

#[test]
fn test_identity_poly() {
    let p = poly_from_vec(vec![0, 2]);

    let additive_identity = UnivariatePolynomial::<17>::additive_identity();
    let p_plus_e = p.add(&additive_identity);
    assert_eq!(p_plus_e, p);

    let multiplicative_identity = UnivariatePolynomial::<17>::multiplicative_identity();
    let p_mul_e = p.mul(&multiplicative_identity);
    assert_eq!(p_mul_e, p);
}

#[test]
fn test_from_multilinear() {
    let p = MultiLinearPolynomial::<17>::new(
        3,
        vec![(fq(2), vec![true, true, false]), (fq(3), vec![false, true, true])],
    )
    .unwrap();

    let uni_poly_result = UnivariatePolynomial::try_from(p.clone());
    assert_eq!(uni_poly_result.is_err(), true);

    let p = p.partial_evaluate(&[(vec![false, true, false], fq(1))]).unwrap();

    let uni_poly_result = UnivariatePolynomial::try_from(p.clone());
    assert_eq!(uni_poly_result.is_err(), true);

    let p = p.partial_evaluate(&[(vec![true, false, false], fq(1))]).unwrap().relabel();

    let uni_poly_result = UnivariatePolynomial::try_from(p);
    assert_eq!(uni_poly_result.is_err(), false);
    let uni_poly = uni_poly_result.unwrap();
    assert_eq!(uni_poly, poly_from_vec(vec![2, 3]));
}

#[test]
fn interpolation_over_index_points() {
    // p = 2x^2 + 5 takes 5, 7, 13 at 0, 1, 2
    let p = UnivariatePolynomial::interpolate(fq_from_vec(vec![5, 7, 13]));
    assert_eq!(p, poly_from_vec(vec![5, 0, 2]));
    for (x, y) in [(0, 5), (1, 7), (2, 13), (3, 23)] {
        assert_eq!(p.evaluate(&fq(x)), fq(y));
    }
}

#[test]
fn univariate_bytes_and_degree() {
    let p = poly_from_vec(vec![1, 16]);
    assert_eq!(p.degree(), 1);
    assert_eq!(poly_zero().degree(), 0);
    assert!(poly_zero().is_zero());
    assert_eq!(p.to_bytes(), vec![0, 0, 0, 0, 0, 0, 0, 1, 0, 0, 0, 0, 0, 0, 0, 16]);
    assert_eq!(p.coefficients(), fq_from_vec(vec![1, 16]).as_slice());
}

#[test]
fn polynomial_test_evaluation() {
    let p = dense_from_vec(vec![0, 2]);
    assert_eq!(p.evaluate(&fq(4)), fq(8));
}

#[test]
fn polynomial_test_polynomial_addition() {
    assert_eq!(dense_zero().add(&dense_zero()), dense_zero());
    assert_eq!(dense_zero().add(&dense_from_vec(vec![0, 2])), dense_from_vec(vec![0, 2]));
    assert_eq!(dense_from_vec(vec![0, 2]).add(&dense_zero()), dense_from_vec(vec![0, 2]));

    let p = dense_from_vec(vec![4, 3, 2]);
    let q = dense_from_vec(vec![3, 4, 0, 4]);
    let p_plus_q = p.add(&q);
    let q_plus_p = q.add(&p);
    assert_eq!(p_plus_q, q_plus_p);
    assert_eq!(p_plus_q, dense_from_vec(vec![7, 7, 2, 4]));
}

#[test]
fn polynomial_test_polynomial_multiplication() {
    assert_eq!(dense_zero().mul(&dense_from_vec(vec![0, 2])), dense_from_vec(vec![]));
    assert_eq!(dense_from_vec(vec![0, 2]).mul(&dense_zero()), dense_from_vec(vec![]));

    let p = dense_from_vec(vec![4, 3, 2]);
    let q = dense_from_vec(vec![3, 4, 0, 4]);
    let p_mul_q = p.mul(&q);
    let q_mul_p = q.mul(&p);
    assert_eq!(p_mul_q, q_mul_p);
    assert_eq!(p_mul_q, dense_from_vec(vec![12, 25, 18, 24, 12, 8]));
}

#[test]
fn polynomial_test_polynomial_interpolation() {
    let p = Polynomial::interpolate(fq_from_vec(vec![0, 1]), fq_from_vec(vec![0, 2]));
    assert_eq!(p, dense_from_vec(vec![0, 2]));

    let p = Polynomial::interpolate(fq_from_vec(vec![0, 1, 2]), fq_from_vec(vec![5, 7, 13]));
    assert_eq!(p, dense_from_vec(vec![5, 0, 2]));

    let p = Polynomial::interpolate(
        fq_from_vec(vec![0, 1, 3, 4, 5, 8]),
        fq_from_vec(vec![12, 48, 3150, 11772, 33452, 315020]),
    );
    assert_eq!(p, dense_from_vec(vec![12, 25, 18, 24, 12, 8]));

    let p = Polynomial::interpolate(fq_from_vec(vec![5, 7, 9, 1]), fq_from_vec(vec![565, 1631, 3537, -7]));
    assert_eq!(p, dense_from_vec(vec![0, -12, 0, 5]));
}

#[test]
fn dense_polynomial_degree() {
    assert_eq!(dense_from_vec(vec![4, 3, 2]).degree(), 2);
    assert!(dense_zero().is_zero());
    assert_eq!(dense_zero().degree(), 0);
}
