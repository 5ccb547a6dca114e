use vstd::prelude::*;
use vstd::string::StringExecFns;
use crate::bignum::{big_to_decimal, dec_str_of};
use crate::expression::{
    ExprModel, Expression, expr_wf, exprs_wf, exprs_view, lemma_exprs_view_index,
    lemma_exprs_wf_index,
};

verus! {

/// The textual rendering of a tree, in the same infix syntax the parser
/// accepts: every child parenthesized, `+ * / ^` infix, `exp(...)` and
/// `ln(...)` function forms, decimal integer literals, bare variable names.
pub open spec fn spec_render(e: ExprModel<Seq<char>>) -> Seq<char>
    decreases e, 1int,
{
    match e {
        ExprModel::Sum(ts) => render_list(ts, " + "@, 0),
        ExprModel::Product(fs) => render_list(fs, " * "@, 0),
        ExprModel::Quotient(n, d) => "("@ + spec_render(*n) + ")"@ + " / "@ + "("@ + spec_render(
            *d,
        ) + ")"@,
        ExprModel::Power(b, x) => "("@ + spec_render(*b) + ")"@ + " ^ "@ + "("@ + spec_render(*x)
            + ")"@,
        ExprModel::Exponential(t) => "exp("@ + spec_render(*t) + ")"@,
        ExprModel::Logarithm(t) => "ln("@ + spec_render(*t) + ")"@,
        ExprModel::Variable(name) => name,
        ExprModel::Integer(v) => dec_str_of(v),
    }
}

/// The renderings of the elements from index `i` on, each parenthesized, the
/// separator before every element but the first.
pub open spec fn render_list(ts: Seq<ExprModel<Seq<char>>>, sep: Seq<char>, i: int) -> Seq<char>
    decreases ts, ts.len() - i,
{
    if i < 0 || i >= ts.len() {
        Seq::empty()
    } else {
        (if i > 0 {
            sep
        } else {
            Seq::empty()
        }) + "("@ + spec_render(ts[i]) + ")"@ + render_list(ts, sep, i + 1)
    }
}

impl Expression<String> {
    /// Appends the rendering of this expression to a text being built.
    fn render_into(&self, out: &mut String)
        requires
            expr_wf(*self),
        ensures
            final(out)@ == old(out)@ + spec_render(self@),
        decreases *self,
    {
        match self {
            Expression::Sum(ts) => {
                render_children(ts, " + ", out);
            },
            Expression::Product(fs) => {
                render_children(fs, " * ", out);
            },
            Expression::Quotient(ops) => {
                out.append("(");
                ops.0.render_into(out);
                out.append(")");
                out.append(" / ");
                out.append("(");
                ops.1.render_into(out);
                out.append(")");
                proof {
                    assert(out@ =~= old(out)@ + spec_render(self@));
                }
            },
            Expression::Power(ops) => {
                out.append("(");
                ops.0.render_into(out);
                out.append(")");
                out.append(" ^ ");
                out.append("(");
                ops.1.render_into(out);
                out.append(")");
                proof {
                    assert(out@ =~= old(out)@ + spec_render(self@));
                }
            },
            Expression::Exponential(op) => {
                out.append("exp(");
                op.render_into(out);
                out.append(")");
                proof {
                    assert(out@ =~= old(out)@ + spec_render(self@));
                }
            },
            Expression::Logarithm(op) => {
                out.append("ln(");
                op.render_into(out);
                out.append(")");
                proof {
                    assert(out@ =~= old(out)@ + spec_render(self@));
                }
            },
            Expression::Variable(name) => {
                out.append(name.as_str());
            },
            Expression::Integer(n) => {
                let text = big_to_decimal(n);
                out.append(text.as_str());
            },
        }
    }

    /// The textual rendering of this expression, in the same infix syntax the
    /// parser accepts.
    pub fn render(&self) -> (r: String)
        requires
            expr_wf(*self),
        ensures
            r@ == spec_render(self@),
    {
        let mut out = String::new();
        self.render_into(&mut out);
        proof {
            assert(out@ =~= spec_render(self@));
        }
        out
    }
}

/// Appends the renderings of a vector of children, each parenthesized and
/// separated by `sep`.
fn render_children(v: &Vec<Expression<String>>, sep: &str, out: &mut String)
    requires
        exprs_wf(v@),
    ensures
        final(out)@ == old(out)@ + render_list(exprs_view(v@), sep@, 0),
    decreases *v,
{
    let ghost target = exprs_view(v@);
    proof {
        lemma_exprs_view_index(v@);
    }
    let n = v.len();
    let mut i: usize = 0;
    while i < n
        invariant
            exprs_wf(v@),
            n == v@.len(),
            0 <= i <= n,
            target == exprs_view(v@),
            target.len() == n,
            forall|j: int| 0 <= j < n ==> #[trigger] target[j] == v@[j]@,
            old(out)@ + render_list(target, sep@, 0) == out@ + render_list(target, sep@, i as int),
        decreases n - i,
    {
        proof {
            assert(decreases_to!(*v => v@[i as int]));
            lemma_exprs_wf_index(v@);
        }
        if i > 0 {
            out.append(sep);
        }
        out.append("(");
        v[i].render_into(out);
        out.append(")");
        proof {
            assert(old(out)@ + render_list(target, sep@, 0) =~= out@ + render_list(
                target,
                sep@,
                i + 1,
            ));
        }
        i += 1;
    }
    proof {
        assert(render_list(target, sep@, n as int) =~= Seq::empty());
        assert(final(out)@ =~= old(out)@ + render_list(target, sep@, 0));
    }
}

} // verus!
