use calculus::bignum::Bignum;
use calculus::expression::Expression;
use calculus::parser::parse_expression;

fn whole(v: i64) -> Expression<String> {
    Expression::Integer(Bignum::from_i64(v))
}

fn var(name: &str) -> Expression<String> {
    Expression::Variable(name.to_string())
}

#[test]
fn parses_product_of_exponential_and_power() {
    let parsed = parse_expression("exp(x) * x^2").expect("the formula is well-formed");
    assert_eq!(
        parsed,
        Expression::Product(vec![
            Expression::Exponential(Box::new(var("x"))),
            Expression::Power(Box::new((var("x"), whole(2)))),
        ])
    );
    // Differentiating the parsed formula succeeds and normalizes quietly.
    let _ = parsed.differentiate(&"x".to_string()).reduce();
}

#[test]
fn rejects_dangling_operator() {
    assert!(parse_expression("x +").is_err());
}

#[test]
fn rejects_unclosed_parenthesis() {
    assert!(parse_expression("(x").is_err());
}

#[test]
fn parses_sum_with_subtraction_as_negation() {
    let parsed = parse_expression("x - 5").expect("the formula is well-formed");
    assert_eq!(
        parsed,
        Expression::Sum(vec![
            var("x"),
            Expression::Product(vec![whole(-1), whole(5)]),
        ])
    );
}

#[test]
fn parses_leading_negation() {
    let parsed = parse_expression("-x").expect("the formula is well-formed");
    assert_eq!(parsed, Expression::Product(vec![whole(-1), var("x")]));
}

#[test]
fn parses_negative_literal() {
    let parsed = parse_expression("-5").expect("the formula is well-formed");
    assert_eq!(parsed, whole(-5));
}

#[test]
fn parses_quotient() {
    let parsed = parse_expression("x / 2").expect("the formula is well-formed");
    assert_eq!(parsed, Expression::Quotient(Box::new((var("x"), whole(2)))));
}

#[test]
fn parses_logarithm_forms() {
    let with_ln = parse_expression("ln(x)").expect("the formula is well-formed");
    let with_log = parse_expression("log(x)").expect("the formula is well-formed");
    assert_eq!(with_ln, Expression::Logarithm(Box::new(var("x"))));
    assert_eq!(with_log, Expression::Logarithm(Box::new(var("x"))));
}

#[test]
fn parses_with_generous_whitespace() {
    let parsed = parse_expression("  1 +  2 * x  ").expect("the formula is well-formed");
    assert_eq!(
        parsed,
        Expression::Sum(vec![
            whole(1),
            Expression::Product(vec![whole(2), var("x")]),
        ])
    );
}

#[test]
fn rejects_mixed_multiplicative_chain() {
    // The grammar supports either one division or a chain of
    // multiplications at this level, never both.
    assert!(parse_expression("a * b / c").is_err());
}

#[test]
fn rejects_empty_input() {
    assert!(parse_expression("").is_err());
    assert!(parse_expression("   ").is_err());
}

#[test]
fn parses_parenthesized_power_base() {
    let parsed = parse_expression("(x + 1) ^ 2").expect("the formula is well-formed");
    assert_eq!(
        parsed,
        Expression::Power(Box::new((
            Expression::Sum(vec![var("x"), whole(1)]),
            whole(2),
        )))
    );
}

#[test]
fn round_trips_canonical_trees() {
    let samples = vec![
        var("x"),
        whole(42),
        whole(-7),
        Expression::Sum(vec![var("x"), whole(2)]),
        Expression::Product(vec![var("x"), var("y")]),
        Expression::Quotient(Box::new((whole(2), whole(3)))),
        Expression::Power(Box::new((var("x"), whole(2)))),
        Expression::Exponential(Box::new(var("x"))),
        Expression::Logarithm(Box::new(var("x"))),
        Expression::Sum(vec![
            Expression::Product(vec![whole(2), var("x")]),
            Expression::Quotient(Box::new((var("y"), var("z")))),
            whole(9),
        ]),
    ];
    for tree in samples {
        let text = tree.render();
        let reparsed = parse_expression(&text)
            .unwrap_or_else(|_| panic!("rendering must reparse: {}", text));
        assert_eq!(reparsed, tree, "through {}", text);
    }
}

#[test]
fn renders_expected_text() {
    let tree = Expression::Sum(vec![var("x"), whole(2)]);
    assert_eq!(tree.render(), "(x) + (2)");
    let tree = Expression::Quotient(Box::new((whole(1), var("x"))));
    assert_eq!(tree.render(), "(1) / (x)");
    let tree = Expression::Exponential(Box::new(var("x")));
    assert_eq!(tree.render(), "exp(x)");
    assert_eq!(whole(-12).render(), "-12");
}

#[test]
fn parse_then_render_big_literal() {
    let parsed = parse_expression("4294967296").expect("the formula is well-formed");
    assert_eq!(parsed.render(), "4294967296");
    let reduced = Expression::Sum(vec![parsed, whole(1)]).reduce();
    assert_eq!(reduced.render(), "4294967297");
}

#[test]
fn rejects_stacked_powers_without_parentheses() {
    // The exponent is a single primary, so chained carets need parentheses.
    assert!(parse_expression("a^b^c").is_err());
}

#[test]
fn caret_binds_variables_not_functions() {
    // `e ^ x` is a power of the variable named e, not the exponential form.
    let parsed = parse_expression("e ^ x").expect("the formula is well-formed");
    assert_eq!(parsed, Expression::Power(Box::new((var("e"), var("x")))));
}

#[test]
fn unicode_names_are_variables() {
    let parsed = parse_expression("α + 1").expect("the formula is well-formed");
    assert_eq!(
        parsed,
        Expression::Sum(vec![var("α"), whole(1)])
    );
}
