use gkr::bits::selector_from_position;
use gkr::field::Fp;
use gkr::multilinear::MultiLinearPolynomial;
use gkr::sumcheck::{sum_over_boolean_hyper_cube, Sumcheck};
use gkr::univariate::{Polynomial, UnivariatePolynomial};

type Fq = Fp<17>;
type Poly = MultiLinearPolynomial<17>;

fn fq(x: i64) -> Fq {
    Fq::from_i64(x)
}

fn fqs(values: Vec<i64>) -> Vec<Fq> {
    values.into_iter().map(fq).collect()
}

// 2ab + 3bc + 5
fn poly_a() -> Poly {
    Poly::new(
        3,
        vec![(fq(2), vec![true, true, false]), (fq(3), vec![false, true, true]), (fq(5), vec![false, false, false])],
    )
    .unwrap()
}

// 4a + 7c
fn poly_b() -> Poly {
    Poly::new(3, vec![(fq(4), vec![true, false, false]), (fq(7), vec![false, false, true])]).unwrap()
}

#[test]
fn sum_of_polynomials_evaluates_to_sum_of_values() {
    let point = fqs(vec![3, 5, 11]);
    let sum = poly_a().add(&poly_b()).unwrap();
    let expected = poly_a().evaluate(&point).unwrap().add(&poly_b().evaluate(&point).unwrap());
    assert_eq!(sum.evaluate(&point).unwrap(), expected);
    // 2*3*5 + 3*5*11 + 5 + 4*3 + 7*11 = 30 + 165 + 5 + 12 + 77 = 289 = 0 mod 17
    assert_eq!(sum.evaluate(&point).unwrap(), fq(0));
}

#[test]
fn scaled_polynomial_evaluates_to_scaled_value() {
    let point = fqs(vec![1, 2, 3]);
    let scaled = poly_a().scalar_multiply(&fq(6));
    // 2*1*2 + 3*2*3 + 5 = 27 = 10 mod 17; 6 * 10 = 60 = 9 mod 17
    assert_eq!(poly_a().evaluate(&point).unwrap(), fq(10));
    assert_eq!(scaled.evaluate(&point).unwrap(), fq(9));
}

#[test]
fn product_evaluates_to_product_of_values() {
    // (a + 2) * (3b) over disjoint variables [a] and [b]
    let left = Poly::new(1, vec![(fq(1), vec![true]), (fq(2), vec![false])]).unwrap();
    let right = Poly::new(1, vec![(fq(3), vec![true])]).unwrap();
    let product = left.mul(&right);
    let value = product.evaluate(&fqs(vec![4, 5])).unwrap();
    assert_eq!(value, left.evaluate(&fqs(vec![4])).unwrap().mul(&right.evaluate(&fqs(vec![5])).unwrap()));
    // (4 + 2) * 15 = 90 = 5 mod 17
    assert_eq!(value, fq(5));
}

#[test]
fn partial_evaluation_then_evaluation_matches_full_evaluation() {
    let assignments = vec![(selector_from_position(3, 1).unwrap(), fq(4))];
    let partial = poly_a().partial_evaluate(&assignments).unwrap();
    // variable b is fixed to 4 whatever the point says
    assert_eq!(partial.evaluate(&fqs(vec![2, 9, 3])).unwrap(), poly_a().evaluate(&fqs(vec![2, 4, 3])).unwrap());
    // 2*2*4 + 3*4*3 + 5 = 57 = 6 mod 17
    assert_eq!(partial.evaluate(&fqs(vec![2, 9, 3])).unwrap(), fq(6));
}

#[test]
fn repeated_assignment_keeps_the_first_value() {
    let assignments = vec![
        (selector_from_position(3, 0).unwrap(), fq(2)),
        (selector_from_position(3, 0).unwrap(), fq(9)),
    ];
    let partial = poly_a().partial_evaluate(&assignments).unwrap();
    assert_eq!(partial.evaluate(&fqs(vec![7, 1, 1])).unwrap(), poly_a().evaluate(&fqs(vec![2, 1, 1])).unwrap());
}

#[test]
fn bit_string_checker_is_an_indicator() {
    let checker = Poly::bit_string_checker("101".to_string());
    for index in 0..8u64 {
        let point: Vec<Fq> = (0..3).map(|i| Fq::from_u64((index >> (2 - i)) & 1)).collect();
        let expected = if index == 0b101 { fq(1) } else { fq(0) };
        assert_eq!(checker.evaluate(&point).unwrap(), expected);
    }
}

#[test]
fn interpolation_takes_the_values_on_the_hypercube() {
    let values = fqs(vec![3, 1, 4, 1, 5, 9]);
    let poly = Poly::interpolate(&values);
    assert_eq!(poly.n_vars(), 3);
    for (index, value) in values.iter().enumerate() {
        let point: Vec<Fq> = (0..3).map(|i| Fq::from_u64(((index as u64) >> (2 - i)) & 1)).collect();
        assert_eq!(poly.evaluate(&point).unwrap(), *value);
    }
}

#[test]
fn sumcheck_accepts_the_true_sum_only() {
    let poly = poly_a();
    let sum = sum_over_boolean_hyper_cube(&poly);
    // 2 * 2 + 3 * 2 + 5 * 8 = 50 = 16 mod 17
    assert_eq!(sum, fq(16));
    assert!(Sumcheck::verify(Sumcheck::prove(poly_a(), sum)));
    assert!(!Sumcheck::verify(Sumcheck::prove(poly_a(), fq(15))));
}

#[test]
fn univariate_sum_and_product_evaluate_pointwise() {
    let p = UnivariatePolynomial::new(fqs(vec![1, 2, 3]));
    let q = UnivariatePolynomial::new(fqs(vec![4, 0, 5]));
    let x = fq(7);
    assert_eq!(p.add(&q).evaluate(&x), p.evaluate(&x).add(&q.evaluate(&x)));
    assert_eq!(p.mul(&q).evaluate(&x), p.evaluate(&x).mul(&q.evaluate(&x)));
    // p(7) = 1 + 14 + 147 = 162 = 9; q(7) = 4 + 245 = 249 = 11; 9 * 11 = 99 = 14 mod 17
    assert_eq!(p.mul(&q).evaluate(&x), fq(14));
}

#[test]
fn univariate_interpolation_passes_through_points() {
    let xs = fqs(vec![2, 5, 11, 13]);
    let ys = fqs(vec![7, 0, 3, 16]);
    let poly = UnivariatePolynomial::interpolate_xy(xs.clone(), ys.clone());
    for (x, y) in xs.iter().zip(ys.iter()) {
        assert_eq!(poly.evaluate(x), *y);
    }
}

#[test]
fn horner_and_term_by_term_evaluation_agree() {
    let coefficients = fqs(vec![3, 0, 8, 1, 16]);
    let horner = UnivariatePolynomial::new(coefficients.clone());
    let dense = Polynomial::new(coefficients);
    for x in 0..17 {
        assert_eq!(horner.evaluate(&fq(x)), dense.evaluate(&fq(x)));
    }
}

#[test]
fn univariate_of_one_variable_multilinear_agrees() {
    let multilinear = Poly::new(1, vec![(fq(6), vec![true]), (fq(9), vec![false])]).unwrap();
    let univariate = UnivariatePolynomial::try_from(multilinear.clone()).unwrap();
    for x in 0..17 {
        assert_eq!(univariate.evaluate(&fq(x)), multilinear.evaluate(&fqs(vec![x])).unwrap());
    }
}

#[test]
fn relabelled_polynomial_keeps_the_values() {
    // 2a + 9c uses a and c only; relabelled it is 2a + 9b
    let poly = Poly::new(3, vec![(fq(2), vec![true, false, false]), (fq(9), vec![false, false, true])]).unwrap();
    let relabelled = poly.clone().relabel();
    assert_eq!(relabelled.n_vars(), 2);
    for b in 0..3 {
        assert_eq!(relabelled.evaluate(&fqs(vec![5, 7])).unwrap(), poly.evaluate(&fqs(vec![5, b, 7])).unwrap());
    }
    // 2 * 5 + 9 * 7 = 73 = 5 mod 17
    assert_eq!(relabelled.evaluate(&fqs(vec![5, 7])).unwrap(), fq(5));
}
