use calculus::bignum::Bignum;
use calculus::expression::Expression;

fn whole(v: i64) -> Expression<String> {
    Expression::Integer(Bignum::from_i64(v))
}

fn var(name: &str) -> Expression<String> {
    Expression::Variable(name.to_string())
}

fn x() -> String {
    "x".to_string()
}

#[test]
fn derivative_of_variable_is_one() {
    assert_eq!(var("x").differentiate(&x()).reduce(), whole(1));
}

#[test]
fn derivative_of_other_variable_is_zero() {
    assert_eq!(var("y").differentiate(&x()).reduce(), whole(0));
}

#[test]
fn derivative_of_constant_is_zero() {
    assert_eq!(whole(5).differentiate(&x()).reduce(), whole(0));
}

#[test]
fn derivative_of_cube_uses_power_rule() {
    let tree = Expression::Power(Box::new((var("x"), whole(3))));
    // Three times the square, the coefficient leading.
    assert_eq!(
        tree.differentiate(&x()).reduce(),
        Expression::Product(vec![
            whole(3),
            Expression::Power(Box::new((var("x"), whole(2)))),
        ])
    );
}

#[test]
fn derivative_of_square_as_product() {
    let tree = Expression::Product(vec![var("x"), var("x")]);
    // The product rule gives one summand per factor, and the normalizer
    // collects the two equal terms.
    assert_eq!(
        tree.differentiate(&x()).reduce(),
        Expression::Product(vec![whole(2), var("x")])
    );
}

#[test]
fn derivative_of_exponential() {
    let tree = Expression::Exponential(Box::new(var("x")));
    assert_eq!(
        tree.differentiate(&x()).reduce(),
        Expression::Exponential(Box::new(var("x")))
    );
}

#[test]
fn derivative_of_logarithm() {
    let tree = Expression::Logarithm(Box::new(var("x")));
    assert_eq!(
        tree.differentiate(&x()).reduce(),
        Expression::Quotient(Box::new((whole(1), var("x"))))
    );
}

#[test]
fn derivative_of_power_with_exponent_one() {
    let tree = Expression::Power(Box::new((var("x"), whole(1))));
    assert_eq!(tree.differentiate(&x()).reduce(), whole(1));
}

#[test]
fn derivative_of_power_with_exponent_zero() {
    let tree = Expression::Power(Box::new((var("x"), whole(0))));
    assert_eq!(tree.differentiate(&x()).reduce(), whole(0));
}

#[test]
fn quotient_rule_simplifies() {
    // d((x)/(x+1))/dx: the numerator cancels to one and the two equal
    // denominator factors collect into a square.
    let den = Expression::Sum(vec![var("x"), whole(1)]);
    let tree = Expression::Quotient(Box::new((var("x"), den.clone_tree())));
    let reduced = tree.differentiate(&x()).reduce();
    let expected = Expression::Quotient(Box::new((
        whole(1),
        Expression::Power(Box::new((den.clone_tree(), whole(2)))),
    )));
    assert_eq!(reduced, expected);
}

#[test]
fn product_rule_keeps_factor_positions() {
    // Each summand differentiates one factor in place, the others staying in
    // their original relative order.
    let tree = Expression::Product(vec![var("x"), var("y")]);
    let derivative = tree.differentiate(&x());
    assert_eq!(
        derivative,
        Expression::Sum(vec![
            Expression::Product(vec![whole(1), var("y")]),
            Expression::Product(vec![var("x"), whole(0)]),
        ])
    );
}

#[test]
fn derivative_of_constant_base_power() {
    // d(2^x)/dx = 2^x * ln(2) * 1, kept symbolic by the normalizer.
    let tree = Expression::Power(Box::new((whole(2), var("x"))));
    let reduced = tree.differentiate(&x()).reduce();
    assert_eq!(
        reduced,
        Expression::Product(vec![
            Expression::Power(Box::new((whole(2), var("x")))),
            Expression::Logarithm(Box::new(whole(2))),
        ])
    );
}

trait CloneTree {
    fn clone_tree(&self) -> Self;
}

impl CloneTree for Expression<String> {
    fn clone_tree(&self) -> Self {
        self.duplicate()
    }
}
