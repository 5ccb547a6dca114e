use vstd::prelude::*;
use crate::bignum::{Bignum, big_add};
use crate::expression::{
    ExprModel, Expression, Identifier, expr_view, exprs_view, expr_wf, exprs_wf,
    lemma_exprs_view_index, lemma_exprs_wf_index, lemma_exprs_view_push, lemma_exprs_wf_push,
};

verus! {

/// Negation of a tree: multiplication by `-1`, the representation this
/// library uses in place of a first-class subtraction or negation node.
pub open spec fn spec_negate<ID>(e: ExprModel<ID>) -> ExprModel<ID> {
    ExprModel::Product(seq![ExprModel::Integer(-1), e])
}

/// The symbolic derivative of a tree with respect to the variable whose
/// identity views as `v`: the unreduced output of the differentiation rules,
/// which the caller is expected to normalize.
pub open spec fn spec_derivative<ID>(e: ExprModel<ID>, v: ID) -> ExprModel<ID>
    decreases e,
{
    match e {
        ExprModel::Variable(id) => if id == v {
            ExprModel::Integer(1)
        } else {
            ExprModel::Integer(0)
        },
        ExprModel::Integer(_) => ExprModel::Integer(0),
        ExprModel::Sum(ts) => ExprModel::Sum(derivative_seq(ts, v)),
        ExprModel::Product(fs) => ExprModel::Sum(product_rule_terms(fs, v, 0)),
        ExprModel::Quotient(n, d) => ExprModel::Quotient(
            Box::new(
                ExprModel::Sum(
                    seq![
                        ExprModel::Product(seq![spec_derivative(*n, v), *d]),
                        ExprModel::Product(seq![*n, spec_negate(spec_derivative(*d, v))]),
                    ],
                ),
            ),
            Box::new(ExprModel::Product(seq![*d, *d])),
        ),
        ExprModel::Power(b, x) => {
            if (*b) is Integer {
                // Exponential with constant base.
                ExprModel::Product(
                    seq![
                        ExprModel::Power(Box::new(*b), Box::new(*x)),
                        ExprModel::Logarithm(Box::new(*b)),
                        spec_derivative(*x, v),
                    ],
                )
            } else if (*x) is Integer {
                // Power rule with constant exponent.
                let e0 = (*x)->Integer_0;
                if e0 == 0 {
                    ExprModel::Integer(0)
                } else if e0 == 1 {
                    spec_derivative(*b, v)
                } else {
                    ExprModel::Product(
                        seq![
                            ExprModel::Integer(e0),
                            ExprModel::Power(Box::new(*b), Box::new(ExprModel::Integer(e0 - 1))),
                            spec_derivative(*b, v),
                        ],
                    )
                }
            } else {
                // Logarithmic differentiation for a general power.
                ExprModel::Product(
                    seq![
                        ExprModel::Power(Box::new(*b), Box::new(*x)),
                        ExprModel::Sum(
                            seq![
                                ExprModel::Product(
                                    seq![
                                        spec_derivative(*x, v),
                                        ExprModel::Logarithm(Box::new(*b)),
                                    ],
                                ),
                                ExprModel::Product(
                                    seq![
                                        *x,
                                        ExprModel::Quotient(
                                            Box::new(spec_derivative(*b, v)),
                                            Box::new(*b),
                                        ),
                                    ],
                                ),
                            ],
                        ),
                    ],
                )
            }
        },
        ExprModel::Exponential(t) => ExprModel::Product(
            seq![ExprModel::Exponential(Box::new(*t)), spec_derivative(*t, v)],
        ),
        ExprModel::Logarithm(t) => ExprModel::Quotient(
            Box::new(spec_derivative(*t, v)),
            Box::new(*t),
        ),
    }
}

/// The derivatives of every element, in order.
pub open spec fn derivative_seq<ID>(s: Seq<ExprModel<ID>>, v: ID) -> Seq<ExprModel<ID>>
    decreases s, 0int,
{
    if s.len() == 0 {
        Seq::empty()
    } else {
        seq![spec_derivative(s[0], v)] + derivative_seq(s.drop_first(), v)
    }
}

/// The summands of the generalized product rule from index `i` on: for each
/// factor, a product equal to the original factor list except that the
/// factor at that position is replaced by its derivative.
pub open spec fn product_rule_terms<ID>(fs: Seq<ExprModel<ID>>, v: ID, i: int) -> Seq<
    ExprModel<ID>,
>
    decreases fs, fs.len() - i,
{
    if i < 0 || i >= fs.len() {
        Seq::empty()
    } else {
        seq![
            ExprModel::Product(
                fs.subrange(0, i) + seq![spec_derivative(fs[i], v)] + fs.subrange(
                    i + 1,
                    fs.len() as int,
                ),
            ),
        ] + product_rule_terms(fs, v, i + 1)
    }
}

/// A vector of two expressions.
fn two<I: Identifier>(a: Expression<I>, b: Expression<I>) -> (r: Vec<Expression<I>>)
    requires
        expr_wf(a),
        expr_wf(b),
    ensures
        exprs_view(r@) == seq![a@, b@],
        exprs_wf(r@),
{
    let mut r: Vec<Expression<I>> = Vec::new();
    proof {
        lemma_exprs_view_push(r@, a);
        lemma_exprs_wf_push(r@, a);
        assert(exprs_view(r@) =~= Seq::empty());
    }
    r.push(a);
    proof {
        lemma_exprs_view_push(r@, b);
        lemma_exprs_wf_push(r@, b);
    }
    r.push(b);
    proof {
        assert(exprs_view(r@) =~= seq![expr_view(a), expr_view(b)]);
    }
    r
}

/// A vector of three expressions.
fn three<I: Identifier>(a: Expression<I>, b: Expression<I>, c: Expression<I>) -> (r: Vec<
    Expression<I>,
>)
    requires
        expr_wf(a),
        expr_wf(b),
        expr_wf(c),
    ensures
        exprs_view(r@) == seq![a@, b@, c@],
        exprs_wf(r@),
{
    let mut r = two(a, b);
    proof {
        lemma_exprs_view_push(r@, c);
        lemma_exprs_wf_push(r@, c);
    }
    r.push(c);
    proof {
        assert(exprs_view(r@) =~= seq![expr_view(a), expr_view(b), expr_view(c)]);
    }
    r
}

/// Negation as multiplication by `-1`.
fn negate<I: Identifier>(e: Expression<I>) -> (r: Expression<I>)
    requires
        expr_wf(e),
    ensures
        r@ == spec_negate(e@),
        expr_wf(r),
{
    let minus_one = Expression::Integer(Bignum::from_i64(-1));
    proof {
        assert(minus_one@ == ExprModel::<I::IdView>::Integer(-1));
    }
    Expression::Product(two(minus_one, e))
}

impl<I: Identifier> Expression<I> {
    /// The symbolic derivative of this expression with respect to the given
    /// variable: the unreduced output of the differentiation rules, which the
    /// caller is expected to normalize.
    pub fn differentiate(&self, variable: &I) -> (r: Self)
        requires
            expr_wf(*self),
        ensures
            r@ == spec_derivative(self@, variable.id_view()),
            expr_wf(r),
        decreases *self,
    {
        let ghost v = variable.id_view();
        match self {
            Expression::Variable(id) => {
                if id.same(variable) {
                    Expression::Integer(Bignum::from_u32(1))
                } else {
                    Expression::Integer(Bignum::zero())
                }
            },
            Expression::Integer(_) => Expression::Integer(Bignum::zero()),
            Expression::Sum(ts) => Expression::Sum(differentiate_all(ts, variable)),
            Expression::Product(fs) => Expression::Sum(product_rule(fs, variable)),
            Expression::Quotient(ops) => {
                let dn = ops.0.differentiate(variable);
                let dd = ops.1.differentiate(variable);
                let left = Expression::Product(two(dn, ops.1.duplicate()));
                let right = Expression::Product(two(ops.0.duplicate(), negate(dd)));
                let numerator = Expression::Sum(two(left, right));
                let denominator = Expression::Product(
                    two(ops.1.duplicate(), ops.1.duplicate()),
                );
                let r = Expression::Quotient(Box::new((numerator, denominator)));
                proof {
                    reveal_with_fuel(expr_view, 5);
                    reveal_with_fuel(expr_wf, 5);
                    assert(r@ == spec_derivative(self@, v));
                    assert(expr_wf(r));
                }
                r
            },
            Expression::Power(ops) => {
                if matches!(&ops.0, Expression::Integer(_)) {
                    let again = Expression::Power(
                        Box::new((ops.0.duplicate(), ops.1.duplicate())),
                    );
                    let log_base = Expression::Logarithm(Box::new(ops.0.duplicate()));
                    let dx = ops.1.differentiate(variable);
                    let r = Expression::Product(three(again, log_base, dx));
                    proof {
                        reveal_with_fuel(expr_view, 5);
                        reveal_with_fuel(expr_wf, 5);
                        assert(r@ == spec_derivative(self@, v));
                        assert(expr_wf(r));
                    }
                    r
                } else if matches!(&ops.1, Expression::Integer(_)) {
                    proof {
                        reveal_with_fuel(expr_wf, 3);
                        assert(expr_wf(ops.1));
                    }
                    let is_zero = match &ops.1 {
                        Expression::Integer(e) => e.is_zero(),
                        _ => false,
                    };
                    let is_one = match &ops.1 {
                        Expression::Integer(e) => e.is_one(),
                        _ => false,
                    };
                    if is_zero {
                        Expression::Integer(Bignum::zero())
                    } else if is_one {
                        ops.0.differentiate(variable)
                    } else {
                        let coefficient = match &ops.1 {
                            Expression::Integer(e) => e.duplicate(),
                            _ => Bignum::zero(),
                        };
                        let lowered = big_add(&coefficient, &Bignum::from_i64(-1));
                        let power = Expression::Power(
                            Box::new((ops.0.duplicate(), Expression::Integer(lowered))),
                        );
                        let db = ops.0.differentiate(variable);
                        let r = Expression::Product(
                            three(Expression::Integer(coefficient), power, db),
                        );
                        proof {
                            reveal_with_fuel(expr_view, 5);
                            reveal_with_fuel(expr_wf, 5);
                            assert(r@ == spec_derivative(self@, v));
                            assert(expr_wf(r));
                        }
                        r
                    }
                } else {
                    let again = Expression::Power(
                        Box::new((ops.0.duplicate(), ops.1.duplicate())),
                    );
                    let dx = ops.1.differentiate(variable);
                    let db = ops.0.differentiate(variable);
                    let log_base = Expression::Logarithm(Box::new(ops.0.duplicate()));
                    let left = Expression::Product(two(dx, log_base));
                    let ratio = Expression::Quotient(Box::new((db, ops.0.duplicate())));
                    let right = Expression::Product(two(ops.1.duplicate(), ratio));
                    let inner = Expression::Sum(two(left, right));
                    let r = Expression::Product(two(again, inner));
                    proof {
                        reveal_with_fuel(expr_view, 5);
                        reveal_with_fuel(expr_wf, 5);
                        assert(r@ == spec_derivative(self@, v));
                        assert(expr_wf(r));
                    }
                    r
                }
            },
            Expression::Exponential(op) => {
                let same_node = Expression::Exponential(Box::new(op.duplicate()));
                let dt = op.differentiate(variable);
                let r = Expression::Product(two(same_node, dt));
                proof {
                    reveal_with_fuel(expr_view, 5);
                    reveal_with_fuel(expr_wf, 5);
                    assert(r@ == spec_derivative(self@, v));
                    assert(expr_wf(r));
                }
                r
            },
            Expression::Logarithm(op) => {
                let dt = op.differentiate(variable);
                let r = Expression::Quotient(Box::new((dt, op.duplicate())));
                proof {
                    reveal_with_fuel(expr_view, 5);
                    reveal_with_fuel(expr_wf, 5);
                    assert(r@ == spec_derivative(self@, v));
                    assert(expr_wf(r));
                }
                r
            },
        }
    }
}

/// The derivatives of every expression of a vector, in order.
fn differentiate_all<I: Identifier>(v: &Vec<Expression<I>>, variable: &I) -> (r: Vec<
    Expression<I>,
>)
    requires
        exprs_wf(v@),
    ensures
        exprs_view(r@) == derivative_seq(exprs_view(v@), variable.id_view()),
        exprs_wf(r@),
    decreases *v,
{
    let ghost vid = variable.id_view();
    let mut out: Vec<Expression<I>> = Vec::new();
    let n = v.len();
    let mut i: usize = 0;
    while i < n
        invariant
            exprs_wf(v@),
            n == v@.len(),
            0 <= i <= n,
            out@.len() == i,
            vid == variable.id_view(),
            forall|j: int| 0 <= j < i ==> (#[trigger] out@[j])@ == spec_derivative(v@[j]@, vid),
            forall|j: int| 0 <= j < i ==> expr_wf(#[trigger] out@[j]),
        decreases n - i,
    {
        proof {
            assert(decreases_to!(*v => v@[i as int]));
            lemma_exprs_wf_index(v@);
        }
        out.push(v[i].differentiate(variable));
        i += 1;
    }
    proof {
        lemma_exprs_view_index(out@);
        lemma_exprs_view_index(v@);
        lemma_derivative_seq_index(exprs_view(v@), vid);
        assert forall|j: int| 0 <= j < v@.len() implies #[trigger] exprs_view(out@)[j]
            == derivative_seq(exprs_view(v@), vid)[j] by {
            assert(out@[j]@ == spec_derivative(v@[j]@, vid));
            assert(exprs_view(v@)[j] == v@[j]@);
        }
        assert(exprs_view(out@) =~= derivative_seq(exprs_view(v@), vid));
        lemma_exprs_wf_index(out@);
    }
    out
}

/// `derivative_seq` maps `spec_derivative` over the sequence, index by index.
pub proof fn lemma_derivative_seq_index<ID>(s: Seq<ExprModel<ID>>, v: ID)
    ensures
        derivative_seq(s, v).len() == s.len(),
        forall|i: int| 0 <= i < s.len() ==> #[trigger] derivative_seq(s, v)[i] == spec_derivative(
            s[i],
            v,
        ),
    decreases s.len(),
{
    if s.len() > 0 {
        lemma_derivative_seq_index(s.drop_first(), v);
        assert forall|i: int| 0 <= i < s.len() implies #[trigger] derivative_seq(s, v)[i]
            == spec_derivative(s[i], v) by {
            if i > 0 {
                assert(s.drop_first()[i - 1] == s[i]);
            }
        }
    }
}

/// The summands of the generalized product rule for a vector of factors.
fn product_rule<I: Identifier>(v: &Vec<Expression<I>>, variable: &I) -> (r: Vec<Expression<I>>)
    requires
        exprs_wf(v@),
    ensures
        exprs_view(r@) == product_rule_terms(exprs_view(v@), variable.id_view(), 0),
        exprs_wf(r@),
    decreases *v,
{
    let ghost vid = variable.id_view();
    let ghost target = exprs_view(v@);
    proof {
        lemma_exprs_view_index(v@);
    }
    let mut out: Vec<Expression<I>> = Vec::new();
    let n = v.len();
    let mut i: usize = 0;
    proof {
        assert(exprs_view(out@) =~= Seq::empty());
        assert(exprs_view(out@) + product_rule_terms(target, vid, 0) =~= product_rule_terms(
            target,
            vid,
            0,
        ));
    }
    while i < n
        invariant
            exprs_wf(v@),
            n == v@.len(),
            0 <= i <= n,
            vid == variable.id_view(),
            target == exprs_view(v@),
            target.len() == n,
            forall|j: int| 0 <= j < n ==> #[trigger] target[j] == v@[j]@,
            exprs_view(out@) + product_rule_terms(target, vid, i as int) == product_rule_terms(
                target,
                vid,
                0,
            ),
            exprs_wf(out@),
        decreases n - i,
    {
        proof {
            assert(decreases_to!(*v => v@[i as int]));
            lemma_exprs_wf_index(v@);
        }
        let mut factors: Vec<Expression<I>> = Vec::new();
        proof {
            assert(exprs_view(factors@) =~= Seq::empty());
            assert(exprs_view(factors@) =~= target.subrange(0, 0));
        }
        let mut j: usize = 0;
        while j < n
            invariant
                exprs_wf(v@),
                n == v@.len(),
                0 <= j <= n,
                0 <= i < n,
                vid == variable.id_view(),
                target == exprs_view(v@),
                target.len() == n,
                forall|k: int| 0 <= k < n ==> #[trigger] target[k] == v@[k]@,
                exprs_wf(factors@),
                j <= i ==> exprs_view(factors@) == target.subrange(0, j as int),
                j > i ==> exprs_view(factors@) == target.subrange(0, i as int) + seq![
                    spec_derivative(target[i as int], vid),
                ] + target.subrange(i + 1, j as int),
            decreases n - j,
        {
            proof {
                assert(decreases_to!(*v => v@[j as int]));
                lemma_exprs_wf_index(v@);
            }
            if j != i {
                let elem = v[j].duplicate();
                proof {
                    lemma_exprs_view_push(factors@, elem);
                    lemma_exprs_wf_push(factors@, elem);
                    if j < i {
                        assert(target.subrange(0, j as int).push(target[j as int]) =~= target
                            .subrange(0, j + 1));
                    } else {
                        assert(target.subrange(i + 1, j as int).push(target[j as int]) =~= target
                            .subrange(i + 1, j + 1));
                    }
                }
                factors.push(elem);
                proof {
                    if j < i {
                        assert(exprs_view(factors@) =~= target.subrange(0, j + 1));
                    } else {
                        assert(exprs_view(factors@) =~= target.subrange(0, i as int) + seq![
                            spec_derivative(target[i as int], vid),
                        ] + target.subrange(i + 1, j + 1));
                    }
                }
            } else {
                let derived = v[i].differentiate(variable);
                proof {
                    lemma_exprs_view_push(factors@, derived);
                    lemma_exprs_wf_push(factors@, derived);
                    assert(target.subrange(i + 1, i + 1) =~= Seq::empty());
                }
                factors.push(derived);
                proof {
                    assert(exprs_view(factors@) =~= target.subrange(0, i as int) + seq![
                        spec_derivative(target[i as int], vid),
                    ] + target.subrange(i + 1, i + 1));
                }
            }
            j += 1;
        }
        let summand = Expression::Product(factors);
        proof {
            assert(exprs_view(out@.push(summand)) == exprs_view(out@).push(summand@)) by {
                lemma_exprs_view_push(out@, summand);
            }
            lemma_exprs_wf_push(out@, summand);
            assert(summand@ == product_rule_terms(target, vid, i as int)[0]) by {
                assert(target.subrange(i + 1, n as int) =~= target.subrange(
                    i + 1,
                    target.len() as int,
                ));
            }
            assert(product_rule_terms(target, vid, i as int) == seq![
                product_rule_terms(target, vid, i as int)[0],
            ] + product_rule_terms(target, vid, i + 1)) by {
                assert(product_rule_terms(target, vid, i as int) =~= seq![
                    product_rule_terms(target, vid, i as int)[0],
                ] + product_rule_terms(target, vid, i + 1));
            }
            assert(exprs_view(out@.push(summand)) + product_rule_terms(target, vid, i + 1)
                =~= product_rule_terms(target, vid, 0));
        }
        out.push(summand);
        i += 1;
    }
    proof {
        assert(product_rule_terms(target, vid, n as int) =~= Seq::empty());
        assert(exprs_view(out@) =~= exprs_view(out@) + product_rule_terms(target, vid, n as int));
    }
    out
}

} // verus!
