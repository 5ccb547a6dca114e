use vstd::prelude::*;
use vstd::string::StringExecFns;
use crate::bignum::{big_to_decimal, dec_str_of};
use crate::expression::{
    Identifier,
    ExprModel, Expression, expr_wf, exprs_wf, exprs_view, lemma_exprs_view_index,
    lemma_exprs_wf_index,
};

verus! {

/// The position of the first occurrence of `name`, or the length when it
/// does not occur.
pub open spec fn name_index(names: Seq<Seq<char>>, name: Seq<char>) -> int
    decreases names.len(),
{
    if names.len() == 0 {
        0
    } else if names[0] == name {
        0
    } else {
        1 + name_index(names.drop_first(), name)
    }
}

/// Bounds and meaning of `name_index`.
pub proof fn lemma_name_index(names: Seq<Seq<char>>, name: Seq<char>)
    ensures
        0 <= name_index(names, name) <= names.len(),
        name_index(names, name) < names.len() ==> names[name_index(names, name)] == name,
        forall|k: int| 0 <= k < name_index(names, name) ==> names[k] != name,
    decreases names.len(),
{
    if names.len() > 0 && names[0] != name {
        lemma_name_index(names.drop_first(), name);
        assert forall|k: int| 0 <= k < name_index(names, name) implies names[k] != name by {
            if k > 0 {
                assert(names.drop_first()[k - 1] == names[k]);
            }
        }
        if name_index(names, name) < names.len() {
            assert(names.drop_first()[name_index(names, name) - 1] == names[name_index(
                names,
                name,
            )]);
        }
    }
}

/// Interning a tree: variables named by text become variables named by the
/// index of their first occurrence, and the name table grows by each name
/// not seen before, in traversal order. The result pairs the renamed tree
/// with the grown table.
pub open spec fn spec_intern(e: ExprModel<Seq<char>>, names: Seq<Seq<char>>) -> (
    ExprModel<int>,
    Seq<Seq<char>>,
)
    decreases e, 1int,
{
    match e {
        ExprModel::Sum(ts) => {
            let (rs, ns) = intern_seq(ts, names);
            (ExprModel::Sum(rs), ns)
        },
        ExprModel::Product(fs) => {
            let (rs, ns) = intern_seq(fs, names);
            (ExprModel::Product(rs), ns)
        },
        ExprModel::Quotient(n, d) => {
            let (n2, ns1) = spec_intern(*n, names);
            let (d2, ns2) = spec_intern(*d, ns1);
            (ExprModel::Quotient(Box::new(n2), Box::new(d2)), ns2)
        },
        ExprModel::Power(b, x) => {
            let (b2, ns1) = spec_intern(*b, names);
            let (x2, ns2) = spec_intern(*x, ns1);
            (ExprModel::Power(Box::new(b2), Box::new(x2)), ns2)
        },
        ExprModel::Exponential(t) => {
            let (t2, ns1) = spec_intern(*t, names);
            (ExprModel::Exponential(Box::new(t2)), ns1)
        },
        ExprModel::Logarithm(t) => {
            let (t2, ns1) = spec_intern(*t, names);
            (ExprModel::Logarithm(Box::new(t2)), ns1)
        },
        ExprModel::Variable(name) => {
            let i = name_index(names, name);
            if i < names.len() {
                (ExprModel::Variable(i), names)
            } else {
                (ExprModel::Variable(names.len() as int), names.push(name))
            }
        },
        ExprModel::Integer(v) => (ExprModel::Integer(v), names),
    }
}

/// Interning a sequence of trees, left to right, threading the name table.
pub open spec fn intern_seq(ts: Seq<ExprModel<Seq<char>>>, names: Seq<Seq<char>>) -> (
    Seq<ExprModel<int>>,
    Seq<Seq<char>>,
)
    decreases ts, 0int,
{
    if ts.len() == 0 {
        (Seq::empty(), names)
    } else {
        let (h, ns1) = spec_intern(ts[0], names);
        let (rest, ns2) = intern_seq(ts.drop_first(), ns1);
        (seq![h] + rest, ns2)
    }
}

/// Associates variables and numeric identifiers
pub struct Namespace {
    /// The variables in the namespace, in order of first appearance.
    variables: Vec<String>,
}

impl Namespace {
    /// The names held, in order of first appearance.
    pub closed spec fn names(&self) -> Seq<Seq<char>> {
        Seq::new(self.variables@.len(), |i: int| self.variables@[i]@)
    }

    /// No name is held twice.
    pub open spec fn wf(&self) -> bool {
        forall|i: int, j: int| 0 <= i < j < self.names().len() ==> self.names()[i]
            != self.names()[j]
    }

    /// Creates a new `Namespace`
    pub fn new() -> (r: Self)
        ensures
            r.names() == Seq::<Seq<char>>::empty(),
            r.wf(),
    {
        let r = Namespace { variables: Vec::new() };
        proof {
            assert(r.names() =~= Seq::<Seq<char>>::empty());
        }
        r
    }

    /// The index under which `name` is or becomes known: its position in the
    /// table, the name being appended first if it was not there.
    fn resolve(&mut self, name: &String) -> (r: usize)
        requires
            old(self).wf(),
        ensures
            final(self).wf(),
            r as int == name_index(old(self).names(), name@),
            name_index(old(self).names(), name@) < old(self).names().len() ==> final(self).names()
                == old(self).names(),
            name_index(old(self).names(), name@) == old(self).names().len() ==> final(self).names()
                == old(self).names().push(name@),
            r < final(self).names().len() && final(self).names()[r as int] == name@,
    {
        proof {
            lemma_name_index(old(self).names(), name@);
        }
        let n = self.variables.len();
        let mut k: usize = 0;
        while k < n
            invariant
                old(self).wf(),
                n == self.variables@.len(),
                0 <= k <= n,
                self == old(self),
                forall|j: int| 0 <= j < k ==> old(self).names()[j] != name@,
            decreases n - k,
        {
            proof {
                assert(old(self).names()[k as int] == self.variables@[k as int]@);
            }
            if self.variables[k] == *name {
                proof {
                    lemma_name_index(old(self).names(), name@);
                    assert forall|q: int| 0 <= q < old(self).names().len() && old(self).names()[q]
                        == name@ implies q >= k by {}
                    assert(name_index(old(self).names(), name@) == k as int) by {
                        let ni = name_index(old(self).names(), name@);
                        assert(old(self).names()[k as int] == name@);
                        if ni < k {
                            assert(old(self).names()[ni] != name@);
                        }
                    }
                }
                return k;
            }
            k += 1;
        }
        proof {
            lemma_name_index(old(self).names(), name@);
            assert(name_index(old(self).names(), name@) == n as int) by {
                let ni = name_index(old(self).names(), name@);
                if ni < n {
                    assert(old(self).names()[ni] == name@);
                }
            }
        }
        self.variables.push(name.clone());
        proof {
            assert(self.names() =~= old(self).names().push(name@));
            assert forall|i: int, j: int|
                0 <= i < j < self.names().len() implies self.names()[i] != self.names()[j] by {
                if j == self.names().len() - 1 {
                    assert(self.names()[j] == name@);
                    assert(old(self).names()[i] != name@);
                }
            }
        }
        n
    }

    /// Converts an `Expression` with `String` identifiers into one with
    /// `usize` identifiers, and stores the `String` identifiers: each name is
    /// replaced by the index of its first appearance, the table growing by
    /// the names not seen before, in traversal order.
    pub fn intern(&mut self, expression: &Expression<String>) -> (r: Expression<usize>)
        requires
            old(self).wf(),
            expr_wf(*expression),
        ensures
            final(self).wf(),
            r@ == spec_intern(expression@, old(self).names()).0,
            final(self).names() == spec_intern(expression@, old(self).names()).1,
            expr_wf(r),
        decreases *expression,
    {
        match expression {
            Expression::Sum(ts) => {
                let ghost names0 = self.names();
                let out = self.intern_all(ts);
                let r = Expression::Sum(out);
                proof {
                    assert(expression@ == ExprModel::Sum(exprs_view(ts@)));
                    assert(spec_intern(expression@, names0) == (
                        ExprModel::Sum(intern_seq(exprs_view(ts@), names0).0),
                        intern_seq(exprs_view(ts@), names0).1,
                    ));
                    assert(r@ == ExprModel::Sum(exprs_view(out@)));
                }
                r
            },
            Expression::Product(fs) => {
                let ghost names0 = self.names();
                let out = self.intern_all(fs);
                let r = Expression::Product(out);
                proof {
                    assert(expression@ == ExprModel::Product(exprs_view(fs@)));
                    assert(spec_intern(expression@, names0) == (
                        ExprModel::Product(intern_seq(exprs_view(fs@), names0).0),
                        intern_seq(exprs_view(fs@), names0).1,
                    ));
                    assert(r@ == ExprModel::Product(exprs_view(out@)));
                }
                r
            },
            Expression::Quotient(ops) => {
                let n2 = self.intern(&ops.0);
                let d2 = self.intern(&ops.1);
                let r = Expression::Quotient(Box::new((n2, d2)));
                proof {
                    assert(r@ == spec_intern(expression@, old(self).names()).0);
                    assert(self.names() == spec_intern(expression@, old(self).names()).1);
                }
                r
            },
            Expression::Power(ops) => {
                let b2 = self.intern(&ops.0);
                let x2 = self.intern(&ops.1);
                let r = Expression::Power(Box::new((b2, x2)));
                proof {
                    assert(r@ == spec_intern(expression@, old(self).names()).0);
                    assert(self.names() == spec_intern(expression@, old(self).names()).1);
                }
                r
            },
            Expression::Exponential(op) => {
                let r = Expression::Exponential(Box::new(self.intern(op)));
                proof {
                    assert(r@ == spec_intern(expression@, old(self).names()).0);
                    assert(self.names() == spec_intern(expression@, old(self).names()).1);
                }
                r
            },
            Expression::Logarithm(op) => {
                let r = Expression::Logarithm(Box::new(self.intern(op)));
                proof {
                    assert(r@ == spec_intern(expression@, old(self).names()).0);
                    assert(self.names() == spec_intern(expression@, old(self).names()).1);
                }
                r
            },
            Expression::Variable(name) => {
                let idx = self.resolve(name);
                let r = Expression::Variable(idx);
                proof {
                    assert(r@ == ExprModel::<int>::Variable(idx as int));
                    assert(expression@ == ExprModel::<Seq<char>>::Variable(name@)) by {
                        assert(name.id_view() == name@);
                    }
                    assert(idx as int == name_index(old(self).names(), name@));
                    lemma_name_index(old(self).names(), name@);
                    assert(r@ == spec_intern(expression@, old(self).names()).0);
                    assert(self.names() == spec_intern(expression@, old(self).names()).1);
                }
                r
            },
            Expression::Integer(n) => {
                let r = Expression::Integer(n.duplicate());
                proof {
                    assert(r@ == spec_intern(expression@, old(self).names()).0);
                    assert(self.names() == spec_intern(expression@, old(self).names()).1);
                }
                r
            },
        }
    }

    /// Interns every expression of a vector, left to right.
    fn intern_all(&mut self, v: &Vec<Expression<String>>) -> (r: Vec<Expression<usize>>)
        requires
            old(self).wf(),
            exprs_wf(v@),
        ensures
            final(self).wf(),
            exprs_view(r@) == intern_seq(exprs_view(v@), old(self).names()).0,
            final(self).names() == intern_seq(exprs_view(v@), old(self).names()).1,
            exprs_wf(r@),
        decreases *v,
    {
        let ghost target = exprs_view(v@);
        let ghost names0 = old(self).names();
        proof {
            lemma_exprs_view_index(v@);
        }
        let mut out: Vec<Expression<usize>> = Vec::new();
        let n = v.len();
        let mut i: usize = 0;
        proof {
            assert(exprs_view(out@) =~= Seq::<ExprModel<int>>::empty());
            assert(target.skip(0) =~= target);
        }
        while i < n
            invariant
                exprs_wf(v@),
                n == v@.len(),
                0 <= i <= n,
                self.wf(),
                target == exprs_view(v@),
                target.len() == n,
                forall|j: int| 0 <= j < n ==> #[trigger] target[j] == v@[j]@,
                intern_seq(target, names0).0 == exprs_view(out@) + intern_seq(
                    target.skip(i as int),
                    self.names(),
                ).0,
                intern_seq(target, names0).1 == intern_seq(target.skip(i as int), self.names()).1,
                exprs_wf(out@),
            decreases n - i,
        {
            proof {
                assert(decreases_to!(*v => v@[i as int]));
                lemma_exprs_wf_index(v@);
                assert(target.skip(i as int)[0] == target[i as int]);
                assert(target.skip(i as int).drop_first() =~= target.skip(i + 1));
            }
            let ghost names_before = self.names();
            let e2 = self.intern(&v[i]);
            proof {
                crate::expression::lemma_exprs_view_push(out@, e2);
                crate::expression::lemma_exprs_wf_push(out@, e2);
                assert(exprs_view(out@.push(e2)) + intern_seq(target.skip(i + 1), self.names()).0
                    =~= exprs_view(out@) + intern_seq(target.skip(i as int), names_before).0);
            }
            out.push(e2);
            i += 1;
        }
        proof {
            assert(target.skip(n as int) =~= Seq::empty());
            assert(exprs_view(out@) + intern_seq(target.skip(n as int), self.names()).0
                =~= exprs_view(out@));
        }
        out
    }
}

/// The math-typesetting rendering of an interned tree, variables written
/// through a name table: terms joined by `+`, factors parenthesized and
/// juxtaposed, infix `/` and `^`, `e ^` and `ln(...)` function forms, and
/// `<unknown>` for an index the table does not hold.
pub open spec fn spec_latex(e: ExprModel<int>, names: Seq<Seq<char>>) -> Seq<char>
    decreases e, 1int,
{
    match e {
        ExprModel::Sum(ts) => latex_list(ts, names, 0, false),
        ExprModel::Product(fs) => latex_list(fs, names, 0, true),
        ExprModel::Quotient(n, d) => spec_latex(*n, names) + " / "@ + spec_latex(*d, names),
        ExprModel::Power(b, x) => spec_latex(*b, names) + " ^ "@ + spec_latex(*x, names),
        ExprModel::Exponential(t) => "e ^ "@ + spec_latex(*t, names),
        ExprModel::Logarithm(t) => "ln("@ + spec_latex(*t, names) + ")"@,
        ExprModel::Variable(id) => if 0 <= id < names.len() {
            names[id]
        } else {
            "<unknown>"@
        },
        ExprModel::Integer(v) => dec_str_of(v),
    }
}

/// The renderings of the elements from index `i` on: parenthesized and
/// juxtaposed for factors, joined by `+` for terms.
pub open spec fn latex_list(
    ts: Seq<ExprModel<int>>,
    names: Seq<Seq<char>>,
    i: int,
    parens: bool,
) -> Seq<char>
    decreases ts, ts.len() - i,
{
    if i < 0 || i >= ts.len() {
        Seq::empty()
    } else {
        (if parens {
            "("@ + spec_latex(ts[i], names) + ")"@
        } else {
            (if i > 0 {
                " + "@
            } else {
                Seq::empty()
            }) + spec_latex(ts[i], names)
        }) + latex_list(ts, names, i + 1, parens)
    }
}

impl Namespace {
    /// Appends the math rendering of a tree to a text being built.
    fn write_latex(&self, e: &Expression<usize>, out: &mut String)
        requires
            expr_wf(*e),
        ensures
            final(out)@ == old(out)@ + spec_latex(e@, self.names()),
        decreases *e,
    {
        match e {
            Expression::Sum(ts) => {
                self.write_latex_list(ts, false, out);
            },
            Expression::Product(fs) => {
                self.write_latex_list(fs, true, out);
            },
            Expression::Quotient(ops) => {
                self.write_latex(&ops.0, out);
                out.append(" / ");
                self.write_latex(&ops.1, out);
                proof {
                    assert(out@ =~= old(out)@ + spec_latex(e@, self.names()));
                }
            },
            Expression::Power(ops) => {
                self.write_latex(&ops.0, out);
                out.append(" ^ ");
                self.write_latex(&ops.1, out);
                proof {
                    assert(out@ =~= old(out)@ + spec_latex(e@, self.names()));
                }
            },
            Expression::Exponential(op) => {
                out.append("e ^ ");
                self.write_latex(op, out);
                proof {
                    assert(out@ =~= old(out)@ + spec_latex(e@, self.names()));
                }
            },
            Expression::Logarithm(op) => {
                out.append("ln(");
                self.write_latex(op, out);
                out.append(")");
                proof {
                    assert(out@ =~= old(out)@ + spec_latex(e@, self.names()));
                }
            },
            Expression::Variable(id) => {
                if *id < self.variables.len() {
                    proof {
                        assert(self.names()[*id as int] == self.variables@[*id as int]@);
                    }
                    out.append(self.variables[*id].as_str());
                } else {
                    out.append("<unknown>");
                }
            },
            Expression::Integer(n) => {
                let text = big_to_decimal(n);
                out.append(text.as_str());
            },
        }
    }

    /// Appends the math renderings of a vector of children.
    fn write_latex_list(&self, v: &Vec<Expression<usize>>, parens: bool, out: &mut String)
        requires
            exprs_wf(v@),
        ensures
            final(out)@ == old(out)@ + latex_list(exprs_view(v@), self.names(), 0, parens),
        decreases *v,
    {
        let ghost target = exprs_view(v@);
        proof {
            lemma_exprs_view_index(v@);
        }
        let n = v.len();
        let mut i: usize = 0;
        while i < n
            invariant
                exprs_wf(v@),
                n == v@.len(),
                0 <= i <= n,
                target == exprs_view(v@),
                target.len() == n,
                forall|j: int| 0 <= j < n ==> #[trigger] target[j] == v@[j]@,
                old(out)@ + latex_list(target, self.names(), 0, parens) == out@ + latex_list(
                    target,
                    self.names(),
                    i as int,
                    parens,
                ),
            decreases n - i,
        {
            proof {
                assert(decreases_to!(*v => v@[i as int]));
                lemma_exprs_wf_index(v@);
            }
            if parens {
                out.append("(");
                self.write_latex(&v[i], out);
                out.append(")");
            } else {
                if i > 0 {
                    out.append(" + ");
                }
                self.write_latex(&v[i], out);
            }
            proof {
                assert(old(out)@ + latex_list(target, self.names(), 0, parens) =~= out@
                    + latex_list(target, self.names(), i + 1, parens));
            }
            i += 1;
        }
        proof {
            assert(latex_list(target, self.names(), n as int, parens) =~= Seq::empty());
            assert(final(out)@ =~= old(out)@ + latex_list(target, self.names(), 0, parens));
        }
    }

    /// Displays an interned expression as a text containing math notation.
    pub fn display(&self, expression: &Expression<usize>) -> (r: String)
        requires
            expr_wf(*expression),
        ensures
            r@ == spec_latex(expression@, self.names()),
    {
        let mut out = String::new();
        self.write_latex(expression, &mut out);
        proof {
            assert(out@ =~= spec_latex(expression@, self.names()));
        }
        out
    }
}

} // verus!
