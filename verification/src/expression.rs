use vstd::prelude::*;
use crate::bignum::Bignum;

verus! {

/// The mathematical model of an algebraic expression tree. Variable
/// identities appear as their own views, integers as unbounded `int`s.
#[verifier::ext_equal]
pub enum ExprModel<ID> {
    /// Addition of terms; the empty sum stands for `0`.
    Sum(Seq<ExprModel<ID>>),
    /// Multiplication of factors; the empty product stands for `1`.
    Product(Seq<ExprModel<ID>>),
    /// Division of the first operand by the second.
    Quotient(Box<ExprModel<ID>>, Box<ExprModel<ID>>),
    /// The first operand raised to the second.
    Power(Box<ExprModel<ID>>, Box<ExprModel<ID>>),
    /// `e` raised to the operand.
    Exponential(Box<ExprModel<ID>>),
    /// Natural logarithm of the operand.
    Logarithm(Box<ExprModel<ID>>),
    /// A variable.
    Variable(ID),
    /// An integer literal.
    Integer(int),
}

/// An equality-comparable variable identity. The tree is agnostic to which
/// concrete identity is in use: names at the parsing boundary, interned
/// indices elsewhere.
pub trait Identifier: Sized {
    /// The mathematical value an identity stands for.
    type IdView;

    /// The view of this identity.
    spec fn id_view(&self) -> Self::IdView;

    /// Decides whether two identities denote the same variable.
    fn same(&self, other: &Self) -> (r: bool)
        ensures
            r <==> self.id_view() == other.id_view(),
    ;

    /// A copy of this identity.
    fn duplicate(&self) -> (r: Self)
        ensures
            r.id_view() == self.id_view(),
    ;
}

impl Identifier for String {
    type IdView = Seq<char>;

    open spec fn id_view(&self) -> Seq<char> {
        self@
    }

    fn same(&self, other: &Self) -> (r: bool) {
        *self == *other
    }

    fn duplicate(&self) -> (r: Self) {
        self.clone()
    }
}

impl Identifier for usize {
    type IdView = int;

    open spec fn id_view(&self) -> int {
        *self as int
    }

    fn same(&self, other: &Self) -> (r: bool) {
        *self == *other
    }

    fn duplicate(&self) -> (r: Self) {
        *self
    }
}

/// An algebraic expression
#[derive(Debug, PartialEq, Eq)]
pub enum Expression<I> {
    /// Addition of terms
    Sum(Vec<Expression<I>>),
    /// Multiplication of terms
    Product(Vec<Expression<I>>),
    /// Division of a term by another
    Quotient(Box<(Expression<I>, Expression<I>)>),
    /// Exponentiation of a term to another as a power
    Power(Box<(Expression<I>, Expression<I>)>),
    /// Application of the exponential function to a term
    Exponential(Box<Expression<I>>),
    /// Application of the natural logarithm function to a term
    Logarithm(Box<Expression<I>>),
    /// A variable
    Variable(I),
    /// An integer
    Integer(Bignum),
}

/// The model of an expression tree.
pub open spec fn expr_view<I: Identifier>(e: Expression<I>) -> ExprModel<I::IdView>
    decreases e,
{
    match e {
        Expression::Sum(ts) => ExprModel::Sum(exprs_view(ts@)),
        Expression::Product(fs) => ExprModel::Product(exprs_view(fs@)),
        Expression::Quotient(ops) => ExprModel::Quotient(
            Box::new(expr_view(ops.0)),
            Box::new(expr_view(ops.1)),
        ),
        Expression::Power(ops) => ExprModel::Power(
            Box::new(expr_view(ops.0)),
            Box::new(expr_view(ops.1)),
        ),
        Expression::Exponential(op) => ExprModel::Exponential(Box::new(expr_view(*op))),
        Expression::Logarithm(op) => ExprModel::Logarithm(Box::new(expr_view(*op))),
        Expression::Variable(id) => ExprModel::Variable(id.id_view()),
        Expression::Integer(n) => ExprModel::Integer(n@),
    }
}

/// The models of a sequence of expression trees, in order.
pub open spec fn exprs_view<I: Identifier>(s: Seq<Expression<I>>) -> Seq<ExprModel<I::IdView>>
    decreases s,
{
    if s.len() == 0 {
        Seq::empty()
    } else {
        seq![expr_view(s[0])] + exprs_view(s.drop_first())
    }
}

/// `exprs_view` maps `expr_view` over the sequence, index by index.
pub proof fn lemma_exprs_view_index<I: Identifier>(s: Seq<Expression<I>>)
    ensures
        exprs_view(s).len() == s.len(),
        forall|i: int| 0 <= i < s.len() ==> #[trigger] exprs_view(s)[i] == expr_view(s[i]),
    decreases s.len(),
{
    if s.len() > 0 {
        lemma_exprs_view_index(s.drop_first());
        assert forall|i: int| 0 <= i < s.len() implies #[trigger] exprs_view(s)[i] == expr_view(
            s[i],
        ) by {
            if i > 0 {
                assert(s.drop_first()[i - 1] == s[i]);
            }
        }
    }
}

impl<I: Identifier> View for Expression<I> {
    type V = ExprModel<I::IdView>;

    open spec fn view(&self) -> ExprModel<I::IdView> {
        expr_view(*self)
    }
}

/// Every integer literal in the tree is in canonical representation.
pub open spec fn expr_wf<I: Identifier>(e: Expression<I>) -> bool
    decreases e,
{
    match e {
        Expression::Sum(ts) => exprs_wf(ts@),
        Expression::Product(fs) => exprs_wf(fs@),
        Expression::Quotient(ops) => expr_wf(ops.0) && expr_wf(ops.1),
        Expression::Power(ops) => expr_wf(ops.0) && expr_wf(ops.1),
        Expression::Exponential(op) => expr_wf(*op),
        Expression::Logarithm(op) => expr_wf(*op),
        Expression::Variable(_) => true,
        Expression::Integer(n) => n.wf(),
    }
}

/// Well-formedness of every tree in a sequence.
pub open spec fn exprs_wf<I: Identifier>(s: Seq<Expression<I>>) -> bool
    decreases s,
{
    if s.len() == 0 {
        true
    } else {
        expr_wf(s[0]) && exprs_wf(s.drop_first())
    }
}

/// `exprs_wf` holds exactly when every element is well-formed.
pub proof fn lemma_exprs_wf_index<I: Identifier>(s: Seq<Expression<I>>)
    ensures
        exprs_wf(s) <==> (forall|i: int| 0 <= i < s.len() ==> expr_wf(#[trigger] s[i])),
    decreases s.len(),
{
    if s.len() > 0 {
        lemma_exprs_wf_index(s.drop_first());
        if exprs_wf(s) {
            assert forall|i: int| 0 <= i < s.len() implies expr_wf(#[trigger] s[i]) by {
                if i > 0 {
                    assert(s.drop_first()[i - 1] == s[i]);
                }
            }
        }
        if forall|i: int| 0 <= i < s.len() ==> expr_wf(#[trigger] s[i]) {
            assert forall|i: int| 0 <= i < s.drop_first().len() implies expr_wf(
                #[trigger] s.drop_first()[i],
            ) by {
                assert(s.drop_first()[i] == s[i + 1]);
            }
        }
    }
}

impl<I: Identifier> Expression<I> {
    /// A deep copy of this expression.
    pub fn duplicate(&self) -> (r: Self)
        ensures
            r@ == self@,
            expr_wf(r) == expr_wf(*self),
        decreases *self,
    {
        match self {
            Expression::Sum(ts) => Expression::Sum(duplicate_all(ts)),
            Expression::Product(fs) => Expression::Product(duplicate_all(fs)),
            Expression::Quotient(ops) => Expression::Quotient(
                Box::new((ops.0.duplicate(), ops.1.duplicate())),
            ),
            Expression::Power(ops) => Expression::Power(
                Box::new((ops.0.duplicate(), ops.1.duplicate())),
            ),
            Expression::Exponential(op) => Expression::Exponential(Box::new(op.duplicate())),
            Expression::Logarithm(op) => Expression::Logarithm(Box::new(op.duplicate())),
            Expression::Variable(id) => Expression::Variable(id.duplicate()),
            Expression::Integer(n) => Expression::Integer(n.duplicate()),
        }
    }
}

/// A deep copy of every expression in a vector.
fn duplicate_all<I: Identifier>(v: &Vec<Expression<I>>) -> (r: Vec<Expression<I>>)
    ensures
        r@.len() == v@.len(),
        forall|j: int| 0 <= j < v@.len() ==> (#[trigger] r@[j])@ == v@[j]@,
        forall|j: int| 0 <= j < v@.len() ==> expr_wf(#[trigger] r@[j]) == expr_wf(v@[j]),
        exprs_view(r@) == exprs_view(v@),
        exprs_wf(r@) == exprs_wf(v@),
    decreases *v,
{
    let mut out: Vec<Expression<I>> = Vec::new();
    let n = v.len();
    let mut i: usize = 0;
    while i < n
        invariant
            n == v@.len(),
            0 <= i <= n,
            out@.len() == i,
            forall|j: int| 0 <= j < i ==> (#[trigger] out@[j])@ == v@[j]@,
            forall|j: int| 0 <= j < i ==> expr_wf(#[trigger] out@[j]) == expr_wf(v@[j]),
        decreases n - i,
    {
        proof {
            assert(decreases_to!(*v => v@[i as int]));
        }
        out.push(v[i].duplicate());
        i += 1;
    }
    proof {
        lemma_exprs_view_index(out@);
        lemma_exprs_view_index(v@);
        assert forall|j: int| 0 <= j < v@.len() implies #[trigger] exprs_view(out@)[j]
            == exprs_view(v@)[j] by {
            assert(out@[j]@ == v@[j]@);
        }
        assert(exprs_view(out@) =~= exprs_view(v@));
        lemma_exprs_wf_index(out@);
        lemma_exprs_wf_index(v@);
        if exprs_wf(out@) {
            assert forall|j: int| 0 <= j < v@.len() implies expr_wf(#[trigger] v@[j]) by {
                assert(expr_wf(out@[j]));
            }
        }
        if exprs_wf(v@) {
            assert forall|j: int| 0 <= j < out@.len() implies expr_wf(#[trigger] out@[j]) by {
                assert(expr_wf(v@[j]));
            }
        }
    }
    out
}

/// Appending one tree extends the sequence of models by its model.
pub proof fn lemma_exprs_view_push<I: Identifier>(s: Seq<Expression<I>>, e: Expression<I>)
    ensures
        exprs_view(s.push(e)) == exprs_view(s).push(expr_view(e)),
{
    lemma_exprs_view_index(s.push(e));
    lemma_exprs_view_index(s);
    assert forall|i: int| 0 <= i < s.len() + 1 implies #[trigger] exprs_view(s.push(e))[i]
        == exprs_view(s).push(expr_view(e))[i] by {
        if i < s.len() {
            assert(s.push(e)[i] == s[i]);
        } else {
            assert(s.push(e)[i] == e);
        }
    }
    assert(exprs_view(s.push(e)) =~= exprs_view(s).push(expr_view(e)));
}

/// Appending one well-formed tree preserves well-formedness of the sequence.
pub proof fn lemma_exprs_wf_push<I: Identifier>(s: Seq<Expression<I>>, e: Expression<I>)
    requires
        exprs_wf(s),
        expr_wf(e),
    ensures
        exprs_wf(s.push(e)),
{
    lemma_exprs_wf_index(s.push(e));
    lemma_exprs_wf_index(s);
    assert forall|i: int| 0 <= i < s.push(e).len() implies expr_wf(#[trigger] s.push(e)[i]) by {
        if i < s.len() {
            assert(s.push(e)[i] == s[i]);
        } else {
            assert(s.push(e)[i] == e);
        }
    }
}

/// The model keeps each constructor: two trees with equal models are built
/// from the same case.
pub proof fn lemma_view_variant<I: Identifier>(e: Expression<I>)
    ensures
        expr_view(e) is Sum <==> e is Sum,
        expr_view(e) is Product <==> e is Product,
        expr_view(e) is Quotient <==> e is Quotient,
        expr_view(e) is Power <==> e is Power,
        expr_view(e) is Exponential <==> e is Exponential,
        expr_view(e) is Logarithm <==> e is Logarithm,
        expr_view(e) is Variable <==> e is Variable,
        expr_view(e) is Integer <==> e is Integer,
{
}

impl<I: Identifier> Expression<I> {
    /// Structural equality of the models, decided recursively.
    pub fn same_tree(&self, other: &Self) -> (r: bool)
        requires
            expr_wf(*self),
            expr_wf(*other),
        ensures
            r <==> self@ == other@,
        decreases *self,
    {
        proof {
            lemma_view_variant(*self);
            lemma_view_variant(*other);
        }
        match (self, other) {
            (Expression::Sum(a), Expression::Sum(b)) => same_trees(a, b),
            (Expression::Product(a), Expression::Product(b)) => same_trees(a, b),
            (Expression::Quotient(x), Expression::Quotient(y)) => {
                let r = x.0.same_tree(&y.0) && x.1.same_tree(&y.1);
                proof {
                    assert(self@ == ExprModel::Quotient(
                        Box::new(expr_view(x.0)),
                        Box::new(expr_view(x.1)),
                    ));
                    assert(other@ == ExprModel::Quotient(
                        Box::new(expr_view(y.0)),
                        Box::new(expr_view(y.1)),
                    ));
                }
                r
            },
            (Expression::Power(x), Expression::Power(y)) => {
                let r = x.0.same_tree(&y.0) && x.1.same_tree(&y.1);
                proof {
                    assert(self@ == ExprModel::Power(
                        Box::new(expr_view(x.0)),
                        Box::new(expr_view(x.1)),
                    ));
                    assert(other@ == ExprModel::Power(
                        Box::new(expr_view(y.0)),
                        Box::new(expr_view(y.1)),
                    ));
                }
                r
            },
            (Expression::Exponential(a), Expression::Exponential(b)) => a.same_tree(b),
            (Expression::Logarithm(a), Expression::Logarithm(b)) => a.same_tree(b),
            (Expression::Variable(a), Expression::Variable(b)) => a.same(b),
            (Expression::Integer(a), Expression::Integer(b)) => a.same_value(b),
            _ => false,
        }
    }
}

/// Structural equality of two model sequences, decided element by element.
fn same_trees<I: Identifier>(a: &Vec<Expression<I>>, b: &Vec<Expression<I>>) -> (r: bool)
    requires
        exprs_wf(a@),
        exprs_wf(b@),
    ensures
        r <==> exprs_view(a@) == exprs_view(b@),
    decreases *a,
{
    proof {
        lemma_exprs_view_index(a@);
        lemma_exprs_view_index(b@);
    }
    if a.len() != b.len() {
        proof {
            assert(exprs_view(a@).len() != exprs_view(b@).len());
        }
        return false;
    }
    let n = a.len();
    let mut i: usize = 0;
    while i < n
        invariant
            exprs_wf(a@),
            exprs_wf(b@),
            n == a@.len(),
            n == b@.len(),
            0 <= i <= n,
            forall|j: int| 0 <= j < i ==> (#[trigger] a@[j])@ == b@[j]@,
        decreases n - i,
    {
        proof {
            assert(decreases_to!(*a => a@[i as int]));
            lemma_exprs_wf_index(a@);
            lemma_exprs_wf_index(b@);
        }
        if !a[i].same_tree(&b[i]) {
            proof {
                lemma_exprs_view_index(a@);
                lemma_exprs_view_index(b@);
                assert(exprs_view(a@)[i as int] != exprs_view(b@)[i as int]);
            }
            return false;
        }
        i += 1;
    }
    proof {
        lemma_exprs_view_index(a@);
        lemma_exprs_view_index(b@);
        assert forall|j: int| 0 <= j < n implies #[trigger] exprs_view(a@)[j] == exprs_view(
            b@,
        )[j] by {
            assert(a@[j]@ == b@[j]@);
        }
        assert(exprs_view(a@) =~= exprs_view(b@));
    }
    true
}

} // verus!
