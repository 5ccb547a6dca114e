use calculus::bignum::Bignum;
use calculus::expression::Expression;

fn whole(v: i64) -> Expression<String> {
    Expression::Integer(Bignum::from_i64(v))
}

fn var(name: &str) -> Expression<String> {
    Expression::Variable(name.to_string())
}

#[test]
fn reduce_folds_sum_of_integers() {
    let tree = Expression::Sum(vec![whole(2), whole(3)]);
    assert_eq!(tree.reduce(), whole(5));
}

#[test]
fn reduce_annihilates_product_with_zero() {
    let tree = Expression::Product(vec![whole(4), whole(0)]);
    assert_eq!(tree.reduce(), whole(0));
}

#[test]
fn reduce_lowers_fraction_terms() {
    let tree = Expression::Quotient(Box::new((whole(6), whole(9))));
    assert_eq!(tree.reduce(), Expression::Quotient(Box::new((whole(2), whole(3)))));
}

#[test]
fn reduce_collapses_whole_fraction() {
    let tree = Expression::Quotient(Box::new((whole(6), whole(3))));
    assert_eq!(tree.reduce(), whole(2));
}

#[test]
fn reduce_keeps_symbolic_quotient() {
    let tree = Expression::Quotient(Box::new((whole(1), var("x"))));
    assert_eq!(tree.reduce(), Expression::Quotient(Box::new((whole(1), var("x")))));
}

#[test]
fn reduce_folds_small_power() {
    let tree = Expression::Power(Box::new((whole(2), whole(10))));
    assert_eq!(tree.reduce(), whole(1024));
}

#[test]
fn reduce_keeps_negative_exponent_symbolic() {
    let tree = Expression::Power(Box::new((whole(2), whole(-3))));
    assert_eq!(tree.reduce(), Expression::Power(Box::new((whole(2), whole(-3)))));
}

#[test]
fn reduce_flattens_nested_sums() {
    let tree = Expression::Sum(vec![
        Expression::Sum(vec![Expression::Sum(vec![var("x"), var("y")]), var("z")]),
        var("w"),
    ]);
    assert_eq!(
        tree.reduce(),
        Expression::Sum(vec![var("x"), var("y"), var("z"), var("w")])
    );
}

#[test]
fn reduce_unwraps_single_survivor() {
    let tree = Expression::Sum(vec![var("x"), whole(0)]);
    assert_eq!(tree.reduce(), var("x"));
}

#[test]
fn reduce_empty_product_is_one() {
    let tree: Expression<String> = Expression::Product(vec![]);
    assert_eq!(tree.reduce(), whole(1));
}

#[test]
fn reduce_empty_sum_is_zero() {
    let tree: Expression<String> = Expression::Sum(vec![]);
    assert_eq!(tree.reduce(), whole(0));
}

#[test]
fn reduce_omits_unit_factor() {
    let tree = Expression::Product(vec![whole(1), var("x"), var("y")]);
    assert_eq!(tree.reduce(), Expression::Product(vec![var("x"), var("y")]));
}

#[test]
fn reduce_is_idempotent_on_samples() {
    let samples = vec![
        Expression::Sum(vec![var("x"), whole(0), Expression::Sum(vec![var("y"), whole(4)])]),
        Expression::Product(vec![whole(3), var("x"), whole(2)]),
        Expression::Quotient(Box::new((whole(10), whole(4)))),
        Expression::Power(Box::new((var("x"), whole(2)))),
        Expression::Exponential(Box::new(Expression::Sum(vec![whole(1), whole(1)]))),
    ];
    for tree in samples {
        let once = tree.reduce();
        let twice = once.reduce();
        assert_eq!(once, twice);
    }
}

#[test]
fn reduce_recurses_into_function_operands() {
    let tree = Expression::Logarithm(Box::new(Expression::Sum(vec![whole(2), whole(3)])));
    assert_eq!(tree.reduce(), Expression::Logarithm(Box::new(whole(5))));
}

#[test]
fn reduce_handles_multi_limb_arithmetic() {
    // 2^32 + 1 exceeds one machine word.
    let tree = Expression::Sum(vec![whole(4294967296), whole(1)]);
    assert_eq!(tree.reduce(), whole(4294967297));
}

#[test]
fn reduce_moves_folded_integer_last() {
    let tree = Expression::Sum(vec![whole(2), var("x"), whole(3)]);
    assert_eq!(tree.reduce(), Expression::Sum(vec![var("x"), whole(5)]));
}

#[test]
fn reduce_keeps_sign_in_lowered_fraction() {
    let tree = Expression::Quotient(Box::new((whole(-6), whole(-9))));
    assert_eq!(
        tree.reduce(),
        Expression::Quotient(Box::new((whole(-2), whole(-3))))
    );
}

#[test]
fn reduce_leaves_negative_unit_denominator() {
    // The gcd is positive, so a negative denominator of magnitude one stays.
    let tree = Expression::Quotient(Box::new((whole(6), whole(-3))));
    assert_eq!(
        tree.reduce(),
        Expression::Quotient(Box::new((whole(2), whole(-1))))
    );
}

#[test]
fn reduce_collects_like_terms() {
    let tree = Expression::Sum(vec![var("x"), var("x")]);
    assert_eq!(tree.reduce(), Expression::Product(vec![whole(2), var("x")]));
}

#[test]
fn reduce_cancels_opposite_terms() {
    let tree = Expression::Sum(vec![var("x"), Expression::Product(vec![whole(-1), var("x")])]);
    assert_eq!(tree.reduce(), whole(0));
}

#[test]
fn reduce_collects_like_factors_into_powers() {
    let tree = Expression::Product(vec![var("x"), var("x")]);
    assert_eq!(
        tree.reduce(),
        Expression::Power(Box::new((var("x"), whole(2))))
    );
    let tree = Expression::Product(vec![
        var("x"),
        Expression::Power(Box::new((var("x"), whole(2)))),
    ]);
    assert_eq!(
        tree.reduce(),
        Expression::Power(Box::new((var("x"), whole(3))))
    );
}

#[test]
fn reduce_puts_folded_integer_first_in_products() {
    let tree = Expression::Product(vec![var("x"), whole(3)]);
    assert_eq!(tree.reduce(), Expression::Product(vec![whole(3), var("x")]));
}

#[test]
fn reduce_collapses_power_of_power() {
    let tree = Expression::Power(Box::new((
        Expression::Power(Box::new((var("x"), whole(2)))),
        whole(3),
    )));
    assert_eq!(
        tree.reduce(),
        Expression::Power(Box::new((var("x"), whole(6))))
    );
}

#[test]
fn reduce_collapses_unit_and_zero_exponents() {
    let tree = Expression::Power(Box::new((var("x"), whole(1))));
    assert_eq!(tree.reduce(), var("x"));
    let tree = Expression::Power(Box::new((var("x"), whole(0))));
    assert_eq!(tree.reduce(), whole(1));
}

#[test]
fn reduce_collapses_zero_over_zero() {
    let tree = Expression::Quotient(Box::new((whole(0), whole(0))));
    assert_eq!(tree.reduce(), whole(0));
}

#[test]
fn reduce_cancelled_factors_leave_one() {
    // x^2 times x^-2 collects to an exponent of zero, which drops out.
    let tree = Expression::Product(vec![
        Expression::Power(Box::new((var("x"), whole(2)))),
        Expression::Power(Box::new((var("x"), whole(-2)))),
    ]);
    assert_eq!(tree.reduce(), whole(1));
}

#[test]
fn reduce_leaves_aggregate_based_terms_alone() {
    // Collection keys on simple bases only: terms whose base is itself a sum
    // stay as written, like the original's constant-folding-only behavior.
    let sum_base = Expression::Sum(vec![var("x"), var("y")]);
    let tree = Expression::Sum(vec![
        Expression::Product(vec![whole(2), sum_base.duplicate()]),
        Expression::Product(vec![whole(-1), sum_base.duplicate()]),
    ]);
    assert_eq!(tree.duplicate().reduce(), tree.reduce());
    assert_eq!(
        tree.reduce(),
        Expression::Sum(vec![
            Expression::Product(vec![whole(2), sum_base.duplicate()]),
            Expression::Product(vec![whole(-1), sum_base.duplicate()]),
        ])
    );
}
