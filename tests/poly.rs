use gkr::error::GkrError;
use gkr::field::Fq;
use gkr::mle::{partial_evaluate, total_evaluate, MultilinearPolynomial};
use gkr::poly::{ProductPoly, SumPoly};

fn to_field(inputs: Vec<u64>) -> Vec<Fq> {
    inputs.iter().map(|x| Fq::from_u64(*x)).collect()
}

fn mle(v: Vec<u64>) -> MultilinearPolynomial {
    MultilinearPolynomial::new(to_field(v))
}

#[test]
fn test_partial_evaluate() {
    let points = to_field(vec![0, 2, 0, 5]);
    let partial_eval = partial_evaluate(points, 0, Fq::from_u64(5));
    assert_eq!(partial_eval, to_field(vec![0, 17]));
}

#[test]
fn test_total_evaluate() {
    let points = to_field(vec![0, 2, 0, 5]);
    let evaluations = to_field(vec![5, 2]);
    let total_eval = total_evaluate(points, evaluations);
    assert_eq!(total_eval, to_field(vec![34]));
}

#[test]
fn lib_test_evaluate() {
    let polynomial = mle(vec![0, 0, 0, 3, 0, 0, 2, 5]);
    let eval = polynomial.evaluate(&to_field(vec![1, 2, 3])).unwrap();
    assert_eq!(eval, Fq::from_u64(22));
}

#[test]
fn lib_test_convert_to_bytes() {
    let polynomial = mle(vec![0, 2, 0, 5]);
    let poly_bytes = polynomial.convert_to_bytes();
    assert_eq!(poly_bytes.len(), 128);
    assert_eq!(poly_bytes[63], 2);
    assert_eq!(poly_bytes[127], 5);
    assert!(poly_bytes[..63].iter().all(|b| *b == 0));
}

#[test]
fn test_product_poly_evaluate() {
    let product_poly = ProductPoly::new(vec![mle(vec![0, 2, 0, 5]), mle(vec![0, 2, 0, 5])]);
    assert_eq!(product_poly.evaluate(&to_field(vec![5, 2])).unwrap(), Fq::from_u64(1156));
}

#[test]
fn test_product_poly_partial_evaluate() {
    let product_poly = ProductPoly::new(vec![mle(vec![0, 2, 0, 5]), mle(vec![0, 2, 0, 5])]);
    let partials = product_poly.partial_evaluate(0, Fq::from_u64(5));
    assert_eq!(partials.poly_coefficients[0].coefficients, to_field(vec![0, 17]));
    assert_eq!(partials.poly_coefficients[1].coefficients, to_field(vec![0, 17]));
}

#[test]
fn test_sum_reduce() {
    let product_poly = ProductPoly::new(vec![mle(vec![0, 2, 0, 5]), mle(vec![0, 2, 0, 5])]);
    let reduced_sum_poly = product_poly.sum_reduce();
    assert_eq!(reduced_sum_poly.coefficients, to_field(vec![0, 4, 0, 10]));
}

#[test]
fn test_product_reduce() {
    let product_poly = ProductPoly::new(vec![mle(vec![0, 2, 0, 5]), mle(vec![0, 2, 0, 5])]);
    let reduced_product_poly = product_poly.product_reduce().unwrap();
    assert_eq!(reduced_product_poly.coefficients, to_field(vec![0, 4, 0, 25]));
}

#[test]
fn test_degree() {
    let product_poly = ProductPoly::new(vec![mle(vec![0, 2, 0, 5]), mle(vec![0, 2, 0, 5])]);
    assert_eq!(product_poly.degree(), 2);
}

#[test]
fn product_poly_test_convert_to_bytes() {
    let product_poly = ProductPoly::new(vec![mle(vec![0, 2, 0, 5]), mle(vec![0, 2, 0, 5])]);
    let bytes = product_poly.convert_to_bytes();
    assert_eq!(bytes.len(), 256);
}

#[test]
fn test_sum_poly() {
    let poly1 = ProductPoly::new(vec![mle(vec![1, 2, 3]), mle(vec![4, 5, 6])]);
    let poly2 = ProductPoly::new(vec![mle(vec![7, 8, 9]), mle(vec![10, 11, 12])]);
    let sum_poly = SumPoly::new(vec![poly1, poly2]);
    assert_eq!(sum_poly.product_polys.len(), 2);
    // Tables of length 3 are not over a hypercube.
    assert_eq!(
        sum_poly.evaluate(&to_field(vec![1, 2])).unwrap_err(),
        GkrError::DimensionMismatch
    );
}

fn four_copies() -> SumPoly {
    let poly1 = ProductPoly::new(vec![mle(vec![0, 2, 0, 5]), mle(vec![0, 2, 0, 5])]);
    let poly2 = ProductPoly::new(vec![mle(vec![0, 2, 0, 5]), mle(vec![0, 2, 0, 5])]);
    SumPoly::new(vec![poly1, poly2])
}

#[test]
fn test_sum_poly_evaluate() {
    let sum_poly = four_copies();
    assert_eq!(sum_poly.evaluate(&to_field(vec![5, 2])).unwrap(), Fq::from_u64(2312));
}

#[test]
fn test_sum_poly_partial_evaluate() {
    let sum_poly = four_copies();
    let partials = sum_poly.partial_evaluate(0, Fq::from_u64(5));
    assert_eq!(partials.product_polys[0].poly_coefficients[0].coefficients, to_field(vec![0, 17]));
    assert_eq!(partials.product_polys[1].poly_coefficients[1].coefficients, to_field(vec![0, 17]));
}

#[test]
fn test_sum_poly_sum_reduce() {
    let poly1 = ProductPoly::new(vec![mle(vec![0, 3, 2, 5]), mle(vec![0, 0, 0, 4])]);
    let poly2 = ProductPoly::new(vec![mle(vec![0, 3, 2, 5]), mle(vec![0, 0, 0, 4])]);
    let sum_poly = SumPoly::new(vec![poly1, poly2]);
    let reduced_sum_poly = sum_poly.sum_reduce().unwrap();
    assert_eq!(reduced_sum_poly.poly_coefficients[0].coefficients, to_field(vec![0, 0, 0, 40]));
}

#[test]
fn test_sum_poly_convert_to_bytes() {
    let sum_poly = four_copies();
    let bytes = sum_poly.convert_to_bytes();
    assert_eq!(bytes.len(), 512);
}

#[test]
fn evaluate_folds_to_thirty_four() {
    // [0, 2, 0, 5] at (5, 2): coordinate 0 at 5 gives [0, 17], then 0 + 2 * 17.
    let polynomial = mle(vec![0, 2, 0, 5]);
    assert_eq!(partial_evaluate(to_field(vec![0, 2, 0, 5]), 0, Fq::from_u64(5)), to_field(vec![0, 17]));
    assert_eq!(polynomial.evaluate(&to_field(vec![5, 2])).unwrap(), Fq::from_u64(34));
}

#[test]
fn folding_in_any_order_matches_evaluate() {
    let table = to_field(vec![3, 1, 4, 1, 5, 9, 2, 6]);
    let point = to_field(vec![7, 11, 13]);
    let expected = MultilinearPolynomial::new(table.clone()).evaluate(&point).unwrap();
    // Coordinates 2, 0, 1 in turn; each fold renumbers those after it.
    let t = partial_evaluate(table.clone(), 2, point[2]);
    let t = partial_evaluate(t, 0, point[0]);
    let t = partial_evaluate(t, 0, point[1]);
    assert_eq!(t, vec![expected]);
    // Last coordinate first.
    assert_eq!(total_evaluate(table, point), vec![expected]);
}

#[test]
fn subtraction_wraps_in_the_field() {
    // 2 + 3 * (0 - 2) = -4, which is the field order minus 4.
    let folded = partial_evaluate(to_field(vec![2, 0]), 0, Fq::from_u64(3));
    assert_eq!(folded[0].add(&Fq::from_u64(4)), Fq::zero());
}

#[test]
fn evaluate_reports_arity_and_dimension() {
    let polynomial = mle(vec![0, 2, 0, 5]);
    assert_eq!(polynomial.evaluate(&to_field(vec![1])).unwrap_err(), GkrError::InvalidArity);
    assert_eq!(mle(vec![1, 2, 3]).evaluate(&to_field(vec![1, 2])).unwrap_err(), GkrError::DimensionMismatch);
    assert_eq!(mle(vec![0, 2, 0, 5]).dimension(), 2);
    assert_eq!(mle(vec![1, 2, 3]).dimension(), 2);
}

#[test]
fn product_reduce_needs_equal_lengths() {
    let product_poly = ProductPoly::new(vec![mle(vec![0, 2, 0, 5]), mle(vec![1, 2])]);
    assert_eq!(product_poly.product_reduce().unwrap_err(), GkrError::DimensionMismatch);
    assert_eq!(ProductPoly::new(vec![]).product_reduce().unwrap_err(), GkrError::DimensionMismatch);
}

#[test]
fn add_polynomials_appends_terms() {
    let mut sum_poly = four_copies();
    sum_poly.add_polynomial(ProductPoly::new(vec![mle(vec![1, 1, 1, 1])]));
    sum_poly.add_polynomials(vec![ProductPoly::new(vec![mle(vec![0, 0, 0, 1])])]);
    assert_eq!(sum_poly.product_polys.len(), 4);
    // 2312 + 1 + 5 * 2
    assert_eq!(sum_poly.evaluate(&to_field(vec![5, 2])).unwrap(), Fq::from_u64(2323));
}

#[test]
fn folding_two_coordinates_commutes() {
    let table = to_field(vec![3, 1, 4, 1, 5, 9, 2, 6]);
    let (r, s) = (Fq::from_u64(10), Fq::from_u64(20));
    // Coordinate 0 first moves coordinate 2 to position 1.
    let a = partial_evaluate(partial_evaluate(table.clone(), 0, r), 1, s);
    let b = partial_evaluate(partial_evaluate(table, 2, s), 0, r);
    assert_eq!(a, b);
}
