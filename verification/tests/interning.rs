use calculus::bignum::Bignum;
use calculus::expression::Expression;
use calculus::namespace::Namespace;

fn var(name: &str) -> Expression<String> {
    Expression::Variable(name.to_string())
}

#[test]
fn intern_numbers_by_first_appearance() {
    let mut table = Namespace::new();
    let tree = Expression::Sum(vec![var("x"), var("y"), var("x")]);
    let keyed = table.intern(&tree);
    assert_eq!(
        keyed,
        Expression::Sum(vec![
            Expression::Variable(0),
            Expression::Variable(1),
            Expression::Variable(0),
        ])
    );
}

#[test]
fn intern_shares_table_across_calls() {
    let mut table = Namespace::new();
    let first = table.intern(&var("a"));
    let second = table.intern(&var("b"));
    let third = table.intern(&var("a"));
    assert_eq!(first, Expression::Variable(0));
    assert_eq!(second, Expression::Variable(1));
    assert_eq!(third, Expression::Variable(0));
}

#[test]
fn intern_keeps_integers() {
    let mut table = Namespace::new();
    let keyed = table.intern(&Expression::Integer(Bignum::from_i64(7)));
    assert_eq!(keyed, Expression::Integer(Bignum::from_i64(7)));
}

#[test]
fn display_writes_names_back() {
    let mut table = Namespace::new();
    let tree = Expression::Sum(vec![
        var("x"),
        Expression::Product(vec![var("y"), Expression::Integer(Bignum::from_i64(2))]),
    ]);
    let keyed = table.intern(&tree);
    assert_eq!(table.display(&keyed), "x + (y)(2)");
}

#[test]
fn display_marks_missing_names() {
    let table = Namespace::new();
    let stray: Expression<usize> = Expression::Variable(3);
    assert_eq!(table.display(&stray), "<unknown>");
}

#[test]
fn display_quotient_and_functions() {
    let mut table = Namespace::new();
    let tree = Expression::Quotient(Box::new((
        Expression::Logarithm(Box::new(var("t"))),
        Expression::Exponential(Box::new(var("t"))),
    )));
    let keyed = table.intern(&tree);
    assert_eq!(table.display(&keyed), "ln(t) / e ^ t");
}
