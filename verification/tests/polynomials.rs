use succinct_proofs::field::FieldElement;
use succinct_proofs::multilinear::{BlowUpDirection, MultiLinearPolynomial};
use succinct_proofs::product_polynomial::ProductPolynomial;
use succinct_proofs::sum_polynomial::SumPolynomial;
use succinct_proofs::univariate::UnivariatePolynomial;

fn fe(x: u64) -> FieldElement {
    FieldElement::from_u64(x)
}

fn fes(xs: &[u64]) -> Vec<FieldElement> {
    xs.iter().map(|&x| fe(x)).collect()
}

fn somes(xs: &[u64]) -> Vec<Option<FieldElement>> {
    xs.iter().map(|&x| Some(fe(x))).collect()
}

fn four_var_poly() -> MultiLinearPolynomial {
    MultiLinearPolynomial::new(&fes(&[0, 0, 0, 0, 0, 4, 0, 4, 0, 0, 3, 3, 5, 9, 8, 12])).unwrap()
}

fn three_var_poly() -> MultiLinearPolynomial {
    MultiLinearPolynomial::new(&fes(&[0, 0, 0, 3, 0, 0, 2, 5])).unwrap()
}

#[test]
fn evaluation_form_test_evaluate_4_variables() {
    let mlp = four_var_poly();
    let result = mlp
        .evaluate(&somes(&[4, 2, 6, 1]))
        .unwrap();
    assert_eq!(*result.get_evaluation_points(), fes(&[120]));
}

#[test]
fn multilinear_polynomial_test_evaluate_4_variables() {
    let mlp = four_var_poly();
    let result = mlp.evaluate(&somes(&[4, 2, 6, 1])).unwrap();
    assert_eq!(*result.get_evaluation_points(), fes(&[120]));
}

#[test]
fn multilinear_polynomial_test_evaluate() {
    let mlp = four_var_poly();
    let result = mlp.evaluate(&somes(&[4, 2, 6, 1])).unwrap();
    assert_eq!(*result.get_evaluation_points(), fes(&[120]));
}

fn partial_at_four(mlp: &MultiLinearPolynomial) -> MultiLinearPolynomial {
    let points = vec![Some(fe(4)), None, None, None];
    mlp.evaluate(&points).unwrap()
}

#[test]
fn evaluation_form_test_partially_evaluate_4_variables_incomplete_points() {
    let result = partial_at_four(&four_var_poly());
    assert_eq!(
        *result.get_evaluation_points(),
        fes(&[0, 0, 12, 12, 20, 24, 32, 36])
    );
}

#[test]
fn multilinear_polynomial_test_partially_evaluate_4_variables_incomplete_points() {
    let result = partial_at_four(&four_var_poly());
    assert_eq!(
        *result.get_evaluation_points(),
        fes(&[0, 0, 12, 12, 20, 24, 32, 36])
    );
}

#[test]
fn test_evaluate_incomplete_points() {
    let result = partial_at_four(&four_var_poly());
    assert_eq!(
        *result.get_evaluation_points(),
        fes(&[0, 0, 12, 12, 20, 24, 32, 36])
    );
}

#[test]
fn evaluation_form_test_partially_evaluate_3_variables_incomplete_points() {
    let mlp = three_var_poly();
    let points = vec![None, None, Some(fe(3))];
    let result = mlp.evaluate(&points).unwrap();
    assert_eq!(*result.get_evaluation_points(), fes(&[0, 9, 0, 11]));
}

#[test]
fn multilinear_polynomial_test_partially_evaluate_3_variables_incomplete_points() {
    let mlp = three_var_poly();
    let points = vec![None, None, Some(fe(3))];
    let result = mlp.evaluate(&points).unwrap();
    assert_eq!(*result.get_evaluation_points(), fes(&[0, 9, 0, 11]));
}

fn check_operation_ws() {
    let w_b = MultiLinearPolynomial::new(&fes(&[0, 0, 0, 3])).unwrap();
    let w_c = MultiLinearPolynomial::new(&fes(&[0, 0, 0, 2])).unwrap();
    assert_eq!(
        *MultiLinearPolynomial::w_add(&w_b, &w_c).get_evaluation_points(),
        fes(&[0, 0, 0, 2, 0, 0, 0, 2, 0, 0, 0, 2, 3, 3, 3, 5])
    );
    assert_eq!(
        *w_b.w_mul(&w_c).get_evaluation_points(),
        fes(&[0, 0, 0, 0, 0, 0, 0, 0, 0, 0, 0, 0, 0, 0, 0, 6])
    );
}

#[test]
fn evaluation_form_test_operation_ws() {
    check_operation_ws();
}

#[test]
fn multilinear_polynomial_test_operation_ws() {
    check_operation_ws();
}

#[test]
fn test_blowup() {
    let init = fes(&[0, 3]);
    let left = MultiLinearPolynomial::blow_up_n_times(BlowUpDirection::Left, 1, &init);
    assert_eq!(left, fes(&[0, 3, 0, 3]));
    let right = MultiLinearPolynomial::blow_up_n_times(BlowUpDirection::Right, 1, &left);
    assert_eq!(right, fes(&[0, 0, 3, 3, 0, 0, 3, 3]));
}

fn test_product() -> ProductPolynomial {
    ProductPolynomial::new(vec![
        MultiLinearPolynomial::new(&fes(&[1, 2, 3, 4])).unwrap(),
        MultiLinearPolynomial::new(&fes(&[1, 2, 3, 4])).unwrap(),
    ])
    .unwrap()
}

#[test]
fn test_product_polynomial_reduce() {
    assert_eq!(test_product().reduce(), fes(&[1, 4, 9, 16]));
}

#[test]
fn test_product_polynomial_evaluate() {
    let points = somes(&[1, 2]);
    assert_eq!(test_product().evaluate(&points).unwrap(), fe(25));
}

#[test]
fn test_product_polynomial_partial_evaluate() {
    let points = vec![Some(fe(1)), None];
    let result = test_product().partial_evaluate(&points).unwrap();
    let polys = result.get_polys();
    assert_eq!(polys.len(), 2);
    for p in polys.iter() {
        assert_eq!(*p.get_evaluation_points(), fes(&[3, 4]));
    }
}

fn test_sum() -> SumPolynomial {
    let member = || {
        ProductPolynomial::new(vec![
            MultiLinearPolynomial::new(&fes(&[2, 3, 4, 5])).unwrap(),
            MultiLinearPolynomial::new(&fes(&[2, 3, 4, 5])).unwrap(),
        ])
        .unwrap()
    };
    SumPolynomial::new(vec![member(), member()]).unwrap()
}

#[test]
fn test_sum_polynomial_reduce() {
    assert_eq!(test_sum().reduce(), fes(&[8, 18, 32, 50]));
}

#[test]
fn test_sum_polynomial_evaluate() {
    let points = somes(&[1, 2]);
    assert_eq!(test_sum().evaluate(&points).unwrap(), fe(72));
}

#[test]
fn test_sum_polynomial_partial_evaluate() {
    let points = vec![Some(fe(1)), None];
    let result = test_sum().partial_evaluate(&points).unwrap();
    let members = result.get_prod_polys();
    assert_eq!(members.len(), 2);
    for m in members.iter() {
        for p in m.get_polys().iter() {
            assert_eq!(*p.get_evaluation_points(), fes(&[4, 5]));
        }
    }
}

#[test]
fn product_polynomial() {
    let sum = test_sum();
    assert_eq!(sum.degree(), 2);
    assert_eq!(sum.length(), 4);
    assert_eq!(sum.reduce(), fes(&[8, 18, 32, 50]));
}

#[test]
fn dense_coefficient_form_test_evaluate() {
    let poly = UnivariatePolynomial::new(fes(&[20, 10, 3]));
    assert_eq!(poly.evaluate(&fe(2)), fe(52));
}

#[test]
fn univariate_polynomial_test_evaluate() {
    let poly = UnivariatePolynomial::new(fes(&[20, 10, 3]));
    assert_eq!(poly.evaluate(&fe(2)), fe(52));
}

#[test]
fn dense_coefficient_form_test_mul() {
    let poly1 = UnivariatePolynomial::new(fes(&[0, 0, 2]));
    let poly2 = UnivariatePolynomial::new(fes(&[0, 0, 0, 4]));
    assert_eq!(poly1._mul(&poly2).coefficients, fes(&[0, 0, 0, 0, 0, 8]));
}

#[test]
fn univariate_polynomial_test_mul() {
    let poly1 = UnivariatePolynomial::new(fes(&[0, 0, 2]));
    let poly2 = UnivariatePolynomial::new(fes(&[0, 0, 0, 4]));
    assert_eq!(poly1._mul(&poly2).coefficients, fes(&[0, 0, 0, 0, 0, 8]));
}

#[test]
fn test_fibonacci_range() {
    let poly = UnivariatePolynomial::interpolate(
        &fes(&[0, 1, 2, 3, 4, 5, 6, 7, 8]),
        &fes(&[0, 1, 1, 2, 3, 5, 8, 13, 21]),
    )
    .unwrap();
    let lhs = poly.evaluate(&fe(5));
    let rhs = poly.evaluate(&fe(4)).add(&poly.evaluate(&fe(3)));
    assert_eq!(lhs, rhs);
}

#[test]
fn univariate_polynomial_test_interpolate() {
    let poly = UnivariatePolynomial::interpolate(
        &fes(&[0, 1, 2, 3, 4, 5, 6, 7, 8]),
        &fes(&[0, 1, 1, 2, 3, 5, 8, 13, 21]),
    )
    .unwrap();
    let lhs = poly.evaluate(&fe(5));
    let rhs = poly.evaluate(&fe(4)).add(&poly.evaluate(&fe(3)));
    assert_eq!(lhs, rhs);
}

fn check_three_interpolations() {
    let poly1 =
        UnivariatePolynomial::interpolate(&fes(&[0, 1, 2]), &fes(&[8, 10, 16])).unwrap();
    let poly2 = UnivariatePolynomial::interpolate(&fes(&[0, 1]), &fes(&[0, 2])).unwrap();
    let poly3 = UnivariatePolynomial::interpolate(&fes(&[2, 4]), &fes(&[4, 8])).unwrap();
    assert_eq!(poly1.coefficients, fes(&[8, 0, 2]));
    assert_eq!(poly2.coefficients, fes(&[0, 2]));
    assert_eq!(poly3.coefficients, fes(&[0, 2]));
}

#[test]
fn dense_coefficient_form_test_interpolate() {
    check_three_interpolations();
}

#[test]
fn test_interpolate_2() {
    check_three_interpolations();
}
