use vstd::prelude::*;
use vstd::arithmetic::div_mod::lemma_div_multiples_vanish;
use vstd::arithmetic::power::pow;
use crate::arith::{gcd_int, lemma_quotient_reduction};
use crate::bignum::{Bignum, big_add, big_mul, big_gcd, big_div_exact};
use crate::expression::{
    ExprModel, Expression, Identifier, expr_view, exprs_view, expr_wf, exprs_wf,
    lemma_exprs_view_index, lemma_exprs_wf_index, lemma_exprs_view_push, lemma_exprs_wf_push,
};
use crate::bignum::big_pow;
use crate::reduce_laws::{
    lemma_reduce_seq_index, lemma_flatten_sums_push, lemma_flatten_products_push, lemma_fold_push,
    lemma_reduce_canonical,
};

verus! {

/// The largest exponent that is folded: a power of two integer literals is
/// evaluated only when the exponent fits a machine word.
pub open spec fn max_folded_exponent() -> int {
    0xFFFF_FFFF
}

/// The models of a reduced sequence, element by element.
pub open spec fn reduce_seq<ID>(s: Seq<ExprModel<ID>>) -> Seq<ExprModel<ID>>
    decreases s,
{
    if s.len() == 0 {
        Seq::empty()
    } else {
        seq![spec_reduce(s[0])] + reduce_seq(s.drop_first())
    }
}

/// Inlines the children of every direct `Sum` element, one level.
pub open spec fn flatten_sums<ID>(s: Seq<ExprModel<ID>>) -> Seq<ExprModel<ID>>
    decreases s.len(),
{
    if s.len() == 0 {
        Seq::empty()
    } else {
        (match s[0] {
            ExprModel::Sum(inner) => inner,
            other => seq![other],
        }) + flatten_sums(s.drop_first())
    }
}

/// Inlines the children of every direct `Product` element, one level.
pub open spec fn flatten_products<ID>(s: Seq<ExprModel<ID>>) -> Seq<ExprModel<ID>>
    decreases s.len(),
{
    if s.len() == 0 {
        Seq::empty()
    } else {
        (match s[0] {
            ExprModel::Product(inner) => inner,
            other => seq![other],
        }) + flatten_products(s.drop_first())
    }
}

/// The elements that are not integer literals, in order.
pub open spec fn non_integers<ID>(s: Seq<ExprModel<ID>>) -> Seq<ExprModel<ID>>
    decreases s.len(),
{
    if s.len() == 0 {
        Seq::empty()
    } else {
        (if s[0] is Integer {
            Seq::empty()
        } else {
            seq![s[0]]
        }) + non_integers(s.drop_first())
    }
}

/// The sum of the integer literals among the elements.
pub open spec fn sum_integers<ID>(s: Seq<ExprModel<ID>>) -> int
    decreases s.len(),
{
    if s.len() == 0 {
        0
    } else {
        (if s[0] is Integer {
            s[0]->Integer_0
        } else {
            0
        }) + sum_integers(s.drop_first())
    }
}

/// The product of the integer literals among the elements.
pub open spec fn prod_integers<ID>(s: Seq<ExprModel<ID>>) -> int
    decreases s.len(),
{
    if s.len() == 0 {
        1
    } else {
        (if s[0] is Integer {
            s[0]->Integer_0
        } else {
            1
        }) * prod_integers(s.drop_first())
    }
}

/// A simple tree: one that is neither an aggregate nor an integer literal,
/// the kind of base that like-term collection keys on.
pub open spec fn is_simple<ID>(m: ExprModel<ID>) -> bool {
    !(m is Sum) && !(m is Product) && !(m is Integer)
}

/// Whether a sum member is a collectable term: a simple tree (coefficient
/// one), or a product of an integer literal and one simple tree.
pub open spec fn term_splits<ID>(m: ExprModel<ID>) -> bool {
    ||| is_simple(m)
    ||| (m is Product && m->Product_0.len() == 2 && m->Product_0[0] is Integer && is_simple(
        m->Product_0[1],
    ))
}

/// The coefficient of a collectable sum term.
pub open spec fn term_coeff<ID>(m: ExprModel<ID>) -> int {
    if m is Product {
        m->Product_0[0]->Integer_0
    } else {
        1
    }
}

/// The base of a collectable sum term.
pub open spec fn term_base<ID>(m: ExprModel<ID>) -> ExprModel<ID> {
    if m is Product {
        m->Product_0[1]
    } else {
        m
    }
}

/// A collected sum term as a tree: the base alone for coefficient one, the
/// coefficient first and the base after it otherwise.
pub open spec fn term_expr<ID>(c: int, b: ExprModel<ID>) -> ExprModel<ID> {
    if c == 1 {
        b
    } else {
        ExprModel::Product(seq![ExprModel::Integer(c), b])
    }
}

/// Whether a product member is a collectable factor: anything but an integer
/// or a nested product, except a power of a product by an integer exponent,
/// which is left as it stands.
pub open spec fn factor_splits<ID>(m: ExprModel<ID>) -> bool {
    &&& !(m is Integer)
    &&& !(m is Product)
    &&& !(is_int_power(m) && (*m->Power_0) is Product)
}

/// The base of a collectable product factor.
pub open spec fn factor_base<ID>(m: ExprModel<ID>) -> ExprModel<ID> {
    if is_int_power(m) {
        *m->Power_0
    } else {
        m
    }
}

/// The exponent of a collectable product factor.
pub open spec fn factor_exp<ID>(m: ExprModel<ID>) -> int {
    if is_int_power(m) {
        (*m->Power_1)->Integer_0
    } else {
        1
    }
}

/// The members of a sequence that collection keys on, as weight-and-base
/// pairs: coefficients for sums when `of_sum` is set, exponents for products
/// otherwise.
pub open spec fn split_pairs<ID>(ms: Seq<ExprModel<ID>>, of_sum: bool) -> Seq<
    (int, ExprModel<ID>),
>
    decreases ms.len(),
{
    if ms.len() == 0 {
        Seq::empty()
    } else {
        (if of_sum {
            if term_splits(ms[0]) {
                seq![(term_coeff(ms[0]), term_base(ms[0]))]
            } else {
                Seq::empty()
            }
        } else {
            if factor_splits(ms[0]) {
                seq![(factor_exp(ms[0]), factor_base(ms[0]))]
            } else {
                Seq::empty()
            }
        }) + split_pairs(ms.drop_first(), of_sum)
    }
}

/// The members of a sequence that collection leaves alone, in order.
pub open spec fn opaque_members<ID>(ms: Seq<ExprModel<ID>>, of_sum: bool) -> Seq<ExprModel<ID>>
    decreases ms.len(),
{
    if ms.len() == 0 {
        Seq::empty()
    } else {
        (if (if of_sum {
            term_splits(ms[0])
        } else {
            factor_splits(ms[0])
        }) {
            Seq::empty()
        } else {
            seq![ms[0]]
        }) + opaque_members(ms.drop_first(), of_sum)
    }
}

/// The total weight carried by one base across a sequence of weighted pairs.
pub open spec fn weight_of<ID>(pairs: Seq<(int, ExprModel<ID>)>, b: ExprModel<ID>) -> int
    decreases pairs.len(),
{
    if pairs.len() == 0 {
        0
    } else {
        (if pairs[0].1 == b {
            pairs[0].0
        } else {
            0
        }) + weight_of(pairs.drop_first(), b)
    }
}

/// The pairs whose base differs from `b`, in order.
pub open spec fn drop_base<ID>(pairs: Seq<(int, ExprModel<ID>)>, b: ExprModel<ID>) -> Seq<
    (int, ExprModel<ID>),
>
    decreases pairs.len(),
{
    if pairs.len() == 0 {
        Seq::empty()
    } else {
        (if pairs[0].1 == b {
            Seq::empty()
        } else {
            seq![pairs[0]]
        }) + drop_base(pairs.drop_first(), b)
    }
}

/// Dropping a base never lengthens the sequence.
pub proof fn lemma_drop_base_len<ID>(pairs: Seq<(int, ExprModel<ID>)>, b: ExprModel<ID>)
    ensures
        drop_base(pairs, b).len() <= pairs.len(),
    decreases pairs.len(),
{
    if pairs.len() > 0 {
        lemma_drop_base_len(pairs.drop_first(), b);
    }
}

/// Collection of weighted pairs: equal bases are merged, their weights
/// summed, bases kept in first-occurrence order.
pub open spec fn collect_pairs<ID>(pairs: Seq<(int, ExprModel<ID>)>) -> Seq<
    (int, ExprModel<ID>),
>
    decreases pairs.len(),
    via collect_pairs_decreases::<ID>
{
    if pairs.len() == 0 {
        Seq::empty()
    } else {
        let b = pairs[0].1;
        seq![(pairs[0].0 + weight_of(pairs.drop_first(), b), b)] + collect_pairs(
            drop_base(pairs.drop_first(), b),
        )
    }
}

#[via_fn]
proof fn collect_pairs_decreases<ID>(pairs: Seq<(int, ExprModel<ID>)>) {
    if pairs.len() > 0 {
        lemma_drop_base_len(pairs.drop_first(), pairs[0].1);
    }
}

/// The collected sum terms as trees, terms with coefficient zero dropped.
pub open spec fn sum_terms<ID>(collected: Seq<(int, ExprModel<ID>)>) -> Seq<ExprModel<ID>>
    decreases collected.len(),
{
    if collected.len() == 0 {
        Seq::empty()
    } else {
        (if collected[0].0 == 0 {
            Seq::empty()
        } else {
            seq![term_expr(collected[0].0, collected[0].1)]
        }) + sum_terms(collected.drop_first())
    }
}

/// The collected product factors as trees, entries that simplify to integer
/// literals dropped here and carried by `power_constant` instead.
pub open spec fn power_factors<ID>(collected: Seq<(int, ExprModel<ID>)>) -> Seq<ExprModel<ID>>
    decreases collected.len(),
{
    if collected.len() == 0 {
        Seq::empty()
    } else {
        (if int_power(collected[0].1, collected[0].0) is Integer {
            Seq::empty()
        } else {
            seq![int_power(collected[0].1, collected[0].0)]
        }) + power_factors(collected.drop_first())
    }
}

/// The product of the collected entries that simplify to integer literals.
pub open spec fn power_constant<ID>(collected: Seq<(int, ExprModel<ID>)>) -> int
    decreases collected.len(),
{
    if collected.len() == 0 {
        1
    } else {
        (if int_power(collected[0].1, collected[0].0) is Integer {
            int_power(collected[0].1, collected[0].0)->Integer_0
        } else {
            1
        }) * power_constant(collected.drop_first())
    }
}

/// Canonical form of a sum whose children are already reduced and flattened:
/// integer literals fold into one; terms over a common simple base collect,
/// their coefficients summed, a term vanishing when its coefficients cancel;
/// members that do not key on a simple base stay as written; the folded
/// integer comes last when nonzero; empty and single-child results collapse.
pub open spec fn build_sum<ID>(flat: Seq<ExprModel<ID>>) -> ExprModel<ID> {
    let total = sum_integers(flat);
    let others = non_integers(flat);
    let terms = sum_terms(collect_pairs(split_pairs(others, true))) + opaque_members(others, true);
    let kept = if total == 0 {
        terms
    } else {
        terms.push(ExprModel::Integer(total))
    };
    if kept.len() == 0 {
        ExprModel::Integer(0)
    } else if kept.len() == 1 {
        kept[0]
    } else {
        ExprModel::Sum(kept)
    }
}

/// Canonical form of a product whose children are already reduced and
/// flattened: integer literals fold into one; factors over a common base
/// collect into powers, their exponents summed, a factor vanishing when its
/// exponents cancel; a zero constant annihilates the product; the folded
/// integer leads when it is not one; empty and single-child results collapse.
pub open spec fn build_product<ID>(flat: Seq<ExprModel<ID>>) -> ExprModel<ID> {
    let others = non_integers(flat);
    let collected = collect_pairs(split_pairs(others, false));
    let total = prod_integers(flat) * power_constant(collected);
    let factors = power_factors(collected) + opaque_members(others, false);
    if total == 0 {
        ExprModel::Integer(0)
    } else {
        let kept = if total == 1 {
            factors
        } else {
            seq![ExprModel::Integer(total)] + factors
        };
        if kept.len() == 0 {
            ExprModel::Integer(1)
        } else if kept.len() == 1 {
            kept[0]
        } else {
            ExprModel::Product(kept)
        }
    }
}

/// Canonical form of a quotient of two reduced operands: a quotient of two
/// integers is put in lowest terms, and a denominator of one collapses to a
/// bare integer; any other quotient keeps its reduced operands. A quotient of
/// zero by zero has no lowest terms and collapses to zero.
pub open spec fn build_quotient<ID>(n: ExprModel<ID>, d: ExprModel<ID>) -> ExprModel<ID> {
    if n is Integer && d is Integer {
        let a = n->Integer_0;
        let b = d->Integer_0;
        if a == 0 && b == 0 {
            ExprModel::Integer(0)
        } else {
            let g = gcd_int(a, b) as int;
            let a2 = a / g;
            let b2 = b / g;
            if b2 == 1 {
                ExprModel::Integer(a2)
            } else {
                ExprModel::Quotient(
                    Box::new(ExprModel::Integer(a2)),
                    Box::new(ExprModel::Integer(b2)),
                )
            }
        }
    } else {
        ExprModel::Quotient(Box::new(n), Box::new(d))
    }
}

/// Whether a tree is a power with an integer literal exponent.
pub open spec fn is_int_power<ID>(m: ExprModel<ID>) -> bool {
    m is Power && (*m->Power_1) is Integer
}

/// Canonical form of a power with a literal integer exponent over a base that
/// is not itself such a power: folded by exact exponentiation when the base
/// is an integer and the exponent a non-negative machine-sized value; an
/// exponent of one collapses to the base and of zero to one; kept symbolic
/// otherwise.
pub open spec fn int_power<ID>(b: ExprModel<ID>, e: int) -> ExprModel<ID> {
    if b is Integer && 0 <= e <= max_folded_exponent() {
        ExprModel::Integer(pow(b->Integer_0, e as nat))
    } else if e == 1 {
        b
    } else if e == 0 {
        ExprModel::Integer(1)
    } else {
        ExprModel::Power(Box::new(b), Box::new(ExprModel::Integer(e)))
    }
}

/// Canonical form of a power of two reduced operands: with a literal integer
/// exponent, a power-of-a-power base is collapsed by multiplying exponents
/// and the result folded or simplified by `int_power`; with a symbolic
/// exponent the power is kept as it stands.
pub open spec fn build_power<ID>(b: ExprModel<ID>, x: ExprModel<ID>) -> ExprModel<ID> {
    if x is Integer {
        let e = x->Integer_0;
        if is_int_power(b) {
            int_power(*b->Power_0, (*b->Power_1)->Integer_0 * e)
        } else {
            int_power(b, e)
        }
    } else {
        ExprModel::Power(Box::new(b), Box::new(x))
    }
}

/// The canonical reduced form of an expression: the mathematical statement of
/// what normalization returns, applied bottom-up.
pub open spec fn spec_reduce<ID>(e: ExprModel<ID>) -> ExprModel<ID>
    decreases e,
{
    match e {
        ExprModel::Sum(ts) => build_sum(flatten_sums(reduce_seq(ts))),
        ExprModel::Product(fs) => build_product(flatten_products(reduce_seq(fs))),
        ExprModel::Quotient(n, d) => build_quotient(spec_reduce(*n), spec_reduce(*d)),
        ExprModel::Power(b, x) => build_power(spec_reduce(*b), spec_reduce(*x)),
        ExprModel::Exponential(t) => ExprModel::Exponential(Box::new(spec_reduce(*t))),
        ExprModel::Logarithm(t) => ExprModel::Logarithm(Box::new(spec_reduce(*t))),
        ExprModel::Variable(v) => ExprModel::Variable(v),
        ExprModel::Integer(n) => ExprModel::Integer(n),
    }
}

/// Whether every element of a sequence is canonical.
pub open spec fn canonical_seq<ID>(s: Seq<ExprModel<ID>>) -> bool
    decreases s,
{
    if s.len() == 0 {
        true
    } else {
        is_canonical(s[0]) && canonical_seq(s.drop_first())
    }
}

/// The members of a canonical sum: no member is itself a sum, the only
/// integer literal is a nonzero one in the last position, and the terms
/// carry pairwise distinct bases, so nothing is left to collect.
pub open spec fn sum_members_ok<ID>(ts: Seq<ExprModel<ID>>) -> bool {
    &&& (forall|i: int| 0 <= i < ts.len() ==> !((#[trigger] ts[i]) is Sum))
    &&& (forall|i: int| 0 <= i < ts.len() - 1 ==> !((#[trigger] ts[i]) is Integer))
    &&& (ts.len() > 0 && ts.last() is Integer ==> ts.last()->Integer_0 != 0)
    &&& (forall|i: int, j: int|
        0 <= i < j < ts.len() && term_splits(#[trigger] ts[i]) && term_splits(#[trigger] ts[j])
            ==> term_base(ts[i]) != term_base(ts[j]))
    &&& (forall|i: int, j: int|
        0 <= i < j < ts.len() && !(#[trigger] ts[i] is Integer) && !(#[trigger] ts[j] is Integer)
            && !term_splits(ts[i]) ==> !term_splits(ts[j]))
}

/// The members of a canonical product: no member is itself a product, the
/// only integer literal is a leading one that is neither zero nor one, and
/// the factors carry pairwise distinct bases, so nothing is left to collect.
pub open spec fn product_members_ok<ID>(fs: Seq<ExprModel<ID>>) -> bool {
    &&& (forall|i: int| 0 <= i < fs.len() ==> !((#[trigger] fs[i]) is Product))
    &&& (forall|i: int| 1 <= i < fs.len() ==> !((#[trigger] fs[i]) is Integer))
    &&& (fs.len() > 0 && fs[0] is Integer ==> fs[0]->Integer_0 != 0 && fs[0]->Integer_0 != 1)
    &&& (forall|i: int, j: int|
        0 <= i < j < fs.len() && factor_splits(#[trigger] fs[i]) && factor_splits(
            #[trigger] fs[j],
        ) ==> factor_base(fs[i]) != factor_base(fs[j]))
    &&& (forall|i: int, j: int|
        0 <= i < j < fs.len() && !(#[trigger] fs[i] is Integer) && !(#[trigger] fs[j] is Integer)
            && !factor_splits(fs[i]) ==> !factor_splits(fs[j]))
}

/// Canonical (fully reduced) form: the shape invariants of normalizer output.
///
/// A canonical aggregate is fully flattened, holds at least two children,
/// carries at most one integer literal — folded, trailing in a sum, leading
/// in a product — and has nothing left to collect: its collectable members
/// carry pairwise distinct bases; a canonical quotient of integers is in
/// lowest terms with denominator other than one; a canonical power carries no
/// literal exponent the normalizer would fold, collapse, or multiply into a
/// nested power.
pub open spec fn is_canonical<ID>(e: ExprModel<ID>) -> bool
    decreases e,
{
    match e {
        ExprModel::Sum(ts) => ts.len() >= 2 && canonical_seq(ts) && sum_members_ok(ts),
        ExprModel::Product(fs) => fs.len() >= 2 && canonical_seq(fs) && product_members_ok(fs),
        ExprModel::Quotient(n, d) => is_canonical(*n) && is_canonical(*d) && (
            (*n) is Integer && (*d) is Integer ==> {
                let a = (*n)->Integer_0;
                let b = (*d)->Integer_0;
                b != 1 && gcd_int(a, b) == 1
            }
        ),
        ExprModel::Power(b, x) => is_canonical(*b) && is_canonical(*x) && ((*x) is Integer
            ==> {
            let e = (*x)->Integer_0;
            &&& !((*b) is Integer && 0 <= e <= max_folded_exponent())
            &&& e != 0
            &&& e != 1
            &&& !is_int_power(*b)
        }),
        ExprModel::Exponential(t) => is_canonical(*t),
        ExprModel::Logarithm(t) => is_canonical(*t),
        ExprModel::Variable(_) => true,
        ExprModel::Integer(_) => true,
    }
}

impl<I: Identifier> Expression<I> {
    /// Normalizes this expression to its canonical reduced form: associative
    /// operators flattened, integer literals folded, like terms and like
    /// factors collected, integer fractions put in lowest terms, machine-sized
    /// integer powers evaluated exactly, and degenerate aggregates collapsed.
    /// The result satisfies the canonical shape invariants, and reducing it
    /// again returns it unchanged.
    pub fn reduce(&self) -> (r: Self)
        requires
            expr_wf(*self),
        ensures
            r@ == spec_reduce(self@),
            expr_wf(r),
            is_canonical(r@),
            spec_reduce(r@) == r@,
    {
        let r = self.reduce_inner();
        proof {
            lemma_reduce_canonical(self@);
            crate::reduce_laws::lemma_canonical_fixed(r@);
        }
        r
    }

    /// The recursive normalization pass.
    fn reduce_inner(&self) -> (r: Self)
        requires
            expr_wf(*self),
        ensures
            r@ == spec_reduce(self@),
            expr_wf(r),
        decreases *self,
    {
        match self {
            Expression::Sum(ts) => {
                let reduced = reduce_all(ts);
                let flat = flatten_sum_children(&reduced);
                let (others, total) = fold_integers(&flat, false);
                let (pairs, opaques) = split_members(&others, true);
                let collected = collect_members(pairs);
                let mut kept = sum_terms_exec(collected);
                append_all(&mut kept, opaques);
                proof {
                    lemma_exprs_view_index(kept@);
                }
                if !total.is_zero() {
                    proof {
                        lemma_exprs_view_push(kept@, Expression::Integer(total));
                        lemma_exprs_wf_push(kept@, Expression::Integer(total));
                    }
                    kept.push(Expression::Integer(total));
                }
                if kept.len() == 0 {
                    Expression::Integer(Bignum::zero())
                } else if kept.len() == 1 {
                    proof {
                        lemma_exprs_view_index(kept@);
                        lemma_exprs_wf_index(kept@);
                    }
                    match kept.pop() {
                        Some(single) => single,
                        None => Expression::Integer(Bignum::zero()),
                    }
                } else {
                    Expression::Sum(kept)
                }
            },
            Expression::Product(fs) => {
                let reduced = reduce_all(fs);
                let flat = flatten_product_children(&reduced);
                let (others, base_total) = fold_integers(&flat, true);
                let (pairs, opaques) = split_members(&others, false);
                let collected = collect_members(pairs);
                let (pfs, pconst) = power_build_exec(collected);
                let total = big_mul(&base_total, &pconst);
                if total.is_zero() {
                    Expression::Integer(Bignum::zero())
                } else {
                    let mut kept: Vec<Expression<I>> = Vec::new();
                    let ghost spec_factors = power_factors(
                        collect_pairs(split_pairs(exprs_view(others@), false)),
                    ) + opaque_members(exprs_view(others@), false);
                    proof {
                        assert(exprs_view(kept@) =~= Seq::<ExprModel<I::IdView>>::empty());
                    }
                    if !total.is_one() {
                        proof {
                            lemma_exprs_view_push(kept@, Expression::Integer(total));
                            lemma_exprs_wf_push(kept@, Expression::Integer(total));
                        }
                        kept.push(Expression::Integer(total));
                        proof {
                            assert(exprs_view(kept@) =~= seq![
                                ExprModel::<I::IdView>::Integer(total@),
                            ]);
                        }
                    }
                    let ghost lead = exprs_view(kept@);
                    append_all(&mut kept, pfs);
                    append_all(&mut kept, opaques);
                    proof {
                        assert(exprs_view(kept@) =~= lead + spec_factors);
                        lemma_exprs_view_index(kept@);
                    }
                    if kept.len() == 0 {
                        Expression::Integer(Bignum::from_u32(1))
                    } else if kept.len() == 1 {
                        proof {
                            lemma_exprs_view_index(kept@);
                            lemma_exprs_wf_index(kept@);
                        }
                        match kept.pop() {
                            Some(single) => single,
                            None => Expression::Integer(Bignum::from_u32(1)),
                        }
                    } else {
                        Expression::Product(kept)
                    }
                }
            },
            Expression::Quotient(ops) => {
                let n = ops.0.reduce_inner();
                let d = ops.1.reduce_inner();
                match (n, d) {
                    (Expression::Integer(a), Expression::Integer(b)) => {
                        if a.is_zero() && b.is_zero() {
                            let r = Expression::Integer(Bignum::zero());
                            proof {
                                reveal_with_fuel(expr_view, 3);
                                reveal_with_fuel(expr_wf, 3);
                                assert(r@ == spec_reduce(self@));
                            }
                            r
                        } else {
                            proof {
                                lemma_quotient_reduction(a@, b@);
                            }
                            let g = big_gcd(&a, &b);
                            let a2 = big_div_exact(&a, &g);
                            let b2 = big_div_exact(&b, &g);
                            proof {
                                lemma_div_multiples_vanish(a2@, g@);
                                lemma_div_multiples_vanish(b2@, g@);
                                assert(g@ * a2@ == a2@ * g@) by (nonlinear_arith);
                                assert(g@ * b2@ == b2@ * g@) by (nonlinear_arith);
                                assert(a2@ == a@ / g@);
                                assert(b2@ == b@ / g@);
                            }
                            if b2.is_one() {
                                let r = Expression::Integer(a2);
                                proof {
                                    reveal_with_fuel(expr_view, 3);
                                    reveal_with_fuel(expr_wf, 3);
                                    assert(r@ == spec_reduce(self@));
                                }
                                r
                            } else {
                                let r = Expression::Quotient(
                                    Box::new((Expression::Integer(a2), Expression::Integer(b2))),
                                );
                                proof {
                                    reveal_with_fuel(expr_view, 3);
                                    reveal_with_fuel(expr_wf, 3);
                                    assert(r@ == spec_reduce(self@));
                                }
                                r
                            }
                        }
                    },
                    (n2, d2) => {
                        proof {
                            assert(n2@ == spec_reduce(expr_view(ops.0)));
                            assert(d2@ == spec_reduce(expr_view(ops.1)));
                            assert(!(n2@ is Integer && d2@ is Integer));
                        }
                        let r = Expression::Quotient(Box::new((n2, d2)));
                        proof {
                            reveal_with_fuel(expr_view, 3);
                            reveal_with_fuel(expr_wf, 3);
                            assert(r@ == spec_reduce(self@));
                        }
                        r
                    },
                }
            },
            Expression::Power(ops) => {
                let base = ops.0.reduce_inner();
                let exponent = ops.1.reduce_inner();
                let ghost bv = base@;
                match exponent {
                    Expression::Integer(e) => {
                        match base {
                            Expression::Power(ops2) => {
                                let operands = *ops2;
                                match operands.1 {
                                    Expression::Integer(em) => {
                                        let e2 = big_mul(&em, &e);
                                        let r = int_power_exec(operands.0, e2);
                                        proof {
                                            reveal_with_fuel(expr_view, 3);
                                            reveal_with_fuel(expr_wf, 3);
                                            assert(is_int_power(bv));
                                            assert(r@ == spec_reduce(self@));
                                        }
                                        r
                                    },
                                    symbolic => {
                                        let rebuilt = Expression::Power(
                                            Box::new((operands.0, symbolic)),
                                        );
                                        proof {
                                            reveal_with_fuel(expr_view, 3);
                                            reveal_with_fuel(expr_wf, 3);
                                            assert(rebuilt@ == bv);
                                            assert(!is_int_power(bv)) by {
                                                crate::expression::lemma_view_variant(
                                                    rebuilt->Power_0.1,
                                                );
                                            }
                                        }
                                        let r = int_power_exec(rebuilt, e);
                                        proof {
                                            assert(r@ == spec_reduce(self@));
                                        }
                                        r
                                    },
                                }
                            },
                            plain => {
                                proof {
                                    reveal_with_fuel(expr_view, 3);
                                    crate::expression::lemma_view_variant(plain);
                                    assert(!is_int_power(bv));
                                }
                                let r = int_power_exec(plain, e);
                                proof {
                                    assert(r@ == spec_reduce(self@));
                                }
                                r
                            },
                        }
                    },
                    symbolic => {
                        let r = Expression::Power(Box::new((base, symbolic)));
                        proof {
                            reveal_with_fuel(expr_view, 3);
                            reveal_with_fuel(expr_wf, 3);
                            crate::expression::lemma_view_variant(r->Power_0.1);
                            assert(r@ == spec_reduce(self@));
                        }
                        r
                    },
                }
            },
            Expression::Exponential(op) => Expression::Exponential(Box::new(op.reduce_inner())),
            Expression::Logarithm(op) => Expression::Logarithm(Box::new(op.reduce_inner())),
            Expression::Variable(id) => Expression::Variable(id.duplicate()),
            Expression::Integer(n) => Expression::Integer(n.duplicate()),
        }
    }
}

/// Normalizes every expression of a vector, in order.
fn reduce_all<I: Identifier>(v: &Vec<Expression<I>>) -> (r: Vec<Expression<I>>)
    requires
        exprs_wf(v@),
    ensures
        exprs_view(r@) == reduce_seq(exprs_view(v@)),
        exprs_wf(r@),
    decreases *v,
{
    let mut out: Vec<Expression<I>> = Vec::new();
    let n = v.len();
    let mut i: usize = 0;
    while i < n
        invariant
            exprs_wf(v@),
            n == v@.len(),
            0 <= i <= n,
            out@.len() == i,
            forall|j: int| 0 <= j < i ==> (#[trigger] out@[j])@ == spec_reduce(v@[j]@),
            forall|j: int| 0 <= j < i ==> expr_wf(#[trigger] out@[j]),
        decreases n - i,
    {
        proof {
            assert(decreases_to!(*v => v@[i as int]));
            lemma_exprs_wf_index(v@);
        }
        out.push(v[i].reduce_inner());
        i += 1;
    }
    proof {
        lemma_exprs_view_index(out@);
        lemma_exprs_view_index(v@);
        lemma_reduce_seq_index(exprs_view(v@));
        assert forall|j: int| 0 <= j < v@.len() implies #[trigger] exprs_view(out@)[j]
            == reduce_seq(exprs_view(v@))[j] by {
            assert(out@[j]@ == spec_reduce(v@[j]@));
            assert(exprs_view(v@)[j] == v@[j]@);
        }
        assert(exprs_view(out@) =~= reduce_seq(exprs_view(v@)));
        lemma_exprs_wf_index(out@);
    }
    out
}

/// Inlines the children of every direct `Sum` element of a vector, one level.
fn flatten_sum_children<I: Identifier>(v: &Vec<Expression<I>>) -> (r: Vec<Expression<I>>)
    requires
        exprs_wf(v@),
    ensures
        exprs_view(r@) == flatten_sums(exprs_view(v@)),
        exprs_wf(r@),
{
    let ghost target = exprs_view(v@);
    let mut out: Vec<Expression<I>> = Vec::new();
    let n = v.len();
    let mut i: usize = 0;
    proof {
        lemma_exprs_view_index(v@);
        assert(target.take(0) =~= Seq::empty());
        assert(exprs_view(out@) =~= Seq::empty());
    }
    while i < n
        invariant
            exprs_wf(v@),
            n == v@.len(),
            0 <= i <= n,
            target == exprs_view(v@),
            target.len() == n,
            forall|j: int| 0 <= j < n ==> #[trigger] target[j] == v@[j]@,
            exprs_view(out@) == flatten_sums(target.take(i as int)),
            exprs_wf(out@),
        decreases n - i,
    {
        proof {
            lemma_exprs_wf_index(v@);
            assert(target.take(i + 1) =~= target.take(i as int).push(target[i as int]));
            lemma_flatten_sums_push(target.take(i as int), target[i as int]);
        }
        match &v[i] {
            Expression::Sum(inner) => {
                let m = inner.len();
                let mut k: usize = 0;
                proof {
                    lemma_exprs_view_index(inner@);
                    assert(exprs_view(inner@).take(0) =~= Seq::empty());
                    assert(exprs_view(out@) + exprs_view(inner@).take(0) =~= exprs_view(out@));
                }
                let ghost out_before = exprs_view(out@);
                while k < m
                    invariant
                        m == inner@.len(),
                        0 <= k <= m,
                        exprs_wf(inner@),
                        exprs_view(out@) == out_before + exprs_view(inner@).take(k as int),
                        exprs_wf(out@),
                        forall|j: int| 0 <= j < m ==> #[trigger] exprs_view(inner@)[j]
                            == inner@[j]@,
                        exprs_view(inner@).len() == m,
                    decreases m - k,
                {
                    proof {
                        lemma_exprs_wf_index(inner@);
                        assert(exprs_view(inner@).take(k + 1) =~= exprs_view(inner@).take(
                            k as int,
                        ).push(exprs_view(inner@)[k as int]));
                    }
                    let elem = inner[k].duplicate();
                    proof {
                        lemma_exprs_view_push(out@, elem);
                        lemma_exprs_wf_push(out@, elem);
                    }
                    out.push(elem);
                    proof {
                        assert(exprs_view(out@) =~= out_before + exprs_view(inner@).take(k + 1));
                    }
                    k += 1;
                }
                proof {
                    assert(exprs_view(inner@).take(m as int) =~= exprs_view(inner@));
                    assert(v@[i as int]@ == ExprModel::Sum(exprs_view(inner@)));
                    assert(exprs_view(out@) =~= flatten_sums(target.take(i + 1)));
                }
            },
            other => {
                let elem = other.duplicate();
                proof {
                    lemma_exprs_view_push(out@, elem);
                    lemma_exprs_wf_push(out@, elem);
                    assert(!(v@[i as int]@ is Sum));
                }
                out.push(elem);
                proof {
                    assert(exprs_view(out@) =~= flatten_sums(target.take(i + 1)));
                }
            },
        }
        i += 1;
    }
    proof {
        assert(target.take(n as int) =~= target);
    }
    out
}

/// Inlines the children of every direct `Product` element of a vector, one
/// level.
fn flatten_product_children<I: Identifier>(v: &Vec<Expression<I>>) -> (r: Vec<Expression<I>>)
    requires
        exprs_wf(v@),
    ensures
        exprs_view(r@) == flatten_products(exprs_view(v@)),
        exprs_wf(r@),
{
    let ghost target = exprs_view(v@);
    let mut out: Vec<Expression<I>> = Vec::new();
    let n = v.len();
    let mut i: usize = 0;
    proof {
        lemma_exprs_view_index(v@);
        assert(target.take(0) =~= Seq::empty());
        assert(exprs_view(out@) =~= Seq::empty());
    }
    while i < n
        invariant
            exprs_wf(v@),
            n == v@.len(),
            0 <= i <= n,
            target == exprs_view(v@),
            target.len() == n,
            forall|j: int| 0 <= j < n ==> #[trigger] target[j] == v@[j]@,
            exprs_view(out@) == flatten_products(target.take(i as int)),
            exprs_wf(out@),
        decreases n - i,
    {
        proof {
            lemma_exprs_wf_index(v@);
            assert(target.take(i + 1) =~= target.take(i as int).push(target[i as int]));
            lemma_flatten_products_push(target.take(i as int), target[i as int]);
        }
        match &v[i] {
            Expression::Product(inner) => {
                let m = inner.len();
                let mut k: usize = 0;
                proof {
                    lemma_exprs_view_index(inner@);
                    assert(exprs_view(inner@).take(0) =~= Seq::empty());
                    assert(exprs_view(out@) + exprs_view(inner@).take(0) =~= exprs_view(out@));
                }
                let ghost out_before = exprs_view(out@);
                while k < m
                    invariant
                        m == inner@.len(),
                        0 <= k <= m,
                        exprs_wf(inner@),
                        exprs_view(out@) == out_before + exprs_view(inner@).take(k as int),
                        exprs_wf(out@),
                        forall|j: int| 0 <= j < m ==> #[trigger] exprs_view(inner@)[j]
                            == inner@[j]@,
                        exprs_view(inner@).len() == m,
                    decreases m - k,
                {
                    proof {
                        lemma_exprs_wf_index(inner@);
                        assert(exprs_view(inner@).take(k + 1) =~= exprs_view(inner@).take(
                            k as int,
                        ).push(exprs_view(inner@)[k as int]));
                    }
                    let elem = inner[k].duplicate();
                    proof {
                        lemma_exprs_view_push(out@, elem);
                        lemma_exprs_wf_push(out@, elem);
                    }
                    out.push(elem);
                    proof {
                        assert(exprs_view(out@) =~= out_before + exprs_view(inner@).take(k + 1));
                    }
                    k += 1;
                }
                proof {
                    assert(exprs_view(inner@).take(m as int) =~= exprs_view(inner@));
                    assert(v@[i as int]@ == ExprModel::Product(exprs_view(inner@)));
                    assert(exprs_view(out@) =~= flatten_products(target.take(i + 1)));
                }
            },
            other => {
                let elem = other.duplicate();
                proof {
                    lemma_exprs_view_push(out@, elem);
                    lemma_exprs_wf_push(out@, elem);
                    assert(!(v@[i as int]@ is Product));
                }
                out.push(elem);
                proof {
                    assert(exprs_view(out@) =~= flatten_products(target.take(i + 1)));
                }
            },
        }
        i += 1;
    }
    proof {
        assert(target.take(n as int) =~= target);
    }
    out
}

/// Separates a vector into its non-integer elements, in order, and the fold
/// of its integer literals: their sum, or their product when `multiply` is
/// set.
fn fold_integers<I: Identifier>(v: &Vec<Expression<I>>, multiply: bool) -> (r: (
    Vec<Expression<I>>,
    Bignum,
))
    requires
        exprs_wf(v@),
    ensures
        exprs_view(r.0@) == non_integers(exprs_view(v@)),
        exprs_wf(r.0@),
        r.1.wf(),
        !multiply ==> r.1@ == sum_integers(exprs_view(v@)),
        multiply ==> r.1@ == prod_integers(exprs_view(v@)),
{
    let ghost target = exprs_view(v@);
    let mut others: Vec<Expression<I>> = Vec::new();
    let mut total: Bignum = if multiply {
        Bignum::from_u32(1)
    } else {
        Bignum::zero()
    };
    let n = v.len();
    let mut i: usize = 0;
    proof {
        lemma_exprs_view_index(v@);
        assert(target.take(0) =~= Seq::empty());
        assert(exprs_view(others@) =~= Seq::empty());
        assert(non_integers(target.take(0)) =~= Seq::empty());
    }
    while i < n
        invariant
            exprs_wf(v@),
            n == v@.len(),
            0 <= i <= n,
            target == exprs_view(v@),
            target.len() == n,
            forall|j: int| 0 <= j < n ==> #[trigger] target[j] == v@[j]@,
            exprs_view(others@) == non_integers(target.take(i as int)),
            exprs_wf(others@),
            total.wf(),
            !multiply ==> total@ == sum_integers(target.take(i as int)),
            multiply ==> total@ == prod_integers(target.take(i as int)),
        decreases n - i,
    {
        proof {
            lemma_exprs_wf_index(v@);
            assert(target.take(i + 1) =~= target.take(i as int).push(target[i as int]));
            lemma_fold_push(target.take(i as int), target[i as int]);
        }
        match &v[i] {
            Expression::Integer(m) => {
                if multiply {
                    total = big_mul(&total, m);
                } else {
                    total = big_add(&total, m);
                }
                proof {
                    assert(exprs_view(others@) =~= non_integers(target.take(i + 1)));
                }
            },
            other => {
                let elem = other.duplicate();
                proof {
                    lemma_exprs_view_push(others@, elem);
                    lemma_exprs_wf_push(others@, elem);
                    assert(!(v@[i as int]@ is Integer));
                }
                others.push(elem);
                proof {
                    assert(exprs_view(others@) =~= non_integers(target.take(i + 1)));
                }
            },
        }
        i += 1;
    }
    proof {
        assert(target.take(n as int) =~= target);
    }
    (others, total)
}

/// A power with a literal integer exponent, simplified as `int_power`
/// prescribes.
fn int_power_exec<I: Identifier>(b: Expression<I>, e: Bignum) -> (r: Expression<I>)
    requires
        expr_wf(b),
        e.wf(),
    ensures
        r@ == int_power(b@, e@),
        expr_wf(r),
{
    let ghost bv = b@;
    proof {
        crate::expression::lemma_view_variant(b);
    }
    match b {
        Expression::Integer(a) => {
            match e.as_u32() {
                Some(word) => {
                    let r = Expression::Integer(big_pow(&a, word));
                    proof {
                        assert(r@ == int_power(bv, e@));
                    }
                    r
                },
                None => {
                    let r = Expression::Power(
                        Box::new((Expression::Integer(a), Expression::Integer(e))),
                    );
                    proof {
                        reveal_with_fuel(expr_view, 3);
                        reveal_with_fuel(expr_wf, 3);
                        assert(r@ == int_power(bv, e@));
                    }
                    r
                },
            }
        },
        other => {
            if e.is_one() {
                other
            } else if e.is_zero() {
                let r = Expression::Integer(Bignum::from_u32(1));
                proof {
                    assert(r@ == int_power(bv, e@));
                }
                r
            } else {
                let ghost ov = other@;
                let r = Expression::Power(Box::new((other, Expression::Integer(e))));
                proof {
                    reveal_with_fuel(expr_view, 3);
                    reveal_with_fuel(expr_wf, 3);
                    assert(r@ == int_power(bv, e@));
                }
                r
            }
        },
    }
}

/// The collected sum terms as trees, terms with coefficient zero dropped.
fn sum_terms_exec<I: Identifier>(collected: Vec<(Bignum, Expression<I>)>) -> (r: Vec<
    Expression<I>,
>)
    requires
        pairs_wf(collected@),
    ensures
        exprs_view(r@) == sum_terms(pairs_view(collected@)),
        exprs_wf(r@),
{
    let ghost target = pairs_view(collected@);
    proof {
        lemma_pairs_view_index(collected@);
    }
    let mut out: Vec<Expression<I>> = Vec::new();
    let n = collected.len();
    let mut i: usize = 0;
    proof {
        assert(exprs_view(out@) =~= Seq::<ExprModel<I::IdView>>::empty());
        assert(target.skip(0) =~= target);
    }
    while i < n
        invariant
            pairs_wf(collected@),
            n == collected@.len(),
            0 <= i <= n,
            target == pairs_view(collected@),
            target.len() == n,
            forall|j: int| 0 <= j < n ==> #[trigger] target[j] == ((
                collected@[j].0@,
                collected@[j].1@,
            )),
            sum_terms(target) == exprs_view(out@) + sum_terms(target.skip(i as int)),
            exprs_wf(out@),
        decreases n - i,
    {
        proof {
            assert(target.skip(i as int)[0] == target[i as int]);
            assert(target.skip(i as int).drop_first() =~= target.skip(i + 1));
        }
        let c = &collected[i].0;
        if c.is_zero() {
            proof {
                assert(sum_terms(target) =~= exprs_view(out@) + sum_terms(target.skip(i + 1)));
            }
        } else if c.is_one() {
            let elem = collected[i].1.duplicate();
            proof {
                lemma_exprs_view_push(out@, elem);
                lemma_exprs_wf_push(out@, elem);
                assert(elem@ == term_expr(target[i as int].0, target[i as int].1));
            }
            out.push(elem);
            proof {
                assert(sum_terms(target) =~= exprs_view(out@) + sum_terms(target.skip(i + 1)));
            }
        } else {
            let mut members: Vec<Expression<I>> = Vec::new();
            let coefficient = Expression::Integer(collected[i].0.duplicate());
            proof {
                lemma_exprs_view_push(members@, coefficient);
                lemma_exprs_wf_push(members@, coefficient);
                assert(exprs_view(members@) =~= Seq::<ExprModel<I::IdView>>::empty());
            }
            members.push(coefficient);
            let ghost mv = exprs_view(members@);
            let second = collected[i].1.duplicate();
            proof {
                lemma_exprs_view_push(members@, second);
                lemma_exprs_wf_push(members@, second);
            }
            members.push(second);
            let elem = Expression::Product(members);
            proof {
                assert(exprs_view(elem->Product_0@) =~= seq![
                    ExprModel::<I::IdView>::Integer(target[i as int].0),
                    target[i as int].1,
                ]);
                assert(elem@ == term_expr(target[i as int].0, target[i as int].1));
                lemma_exprs_view_push(out@, elem);
                lemma_exprs_wf_push(out@, elem);
            }
            out.push(elem);
            proof {
                assert(sum_terms(target) =~= exprs_view(out@) + sum_terms(target.skip(i + 1)));
            }
        }
        i += 1;
    }
    proof {
        assert(target.skip(n as int) =~= Seq::empty());
        assert(exprs_view(out@) + sum_terms(target.skip(n as int)) =~= exprs_view(out@));
    }
    out
}

/// The collected product factors as trees, and the product of the entries
/// that fold to integer literals.
fn power_build_exec<I: Identifier>(collected: Vec<(Bignum, Expression<I>)>) -> (r: (
    Vec<Expression<I>>,
    Bignum,
))
    requires
        pairs_wf(collected@),
    ensures
        exprs_view(r.0@) == power_factors(pairs_view(collected@)),
        r.1@ == power_constant(pairs_view(collected@)),
        exprs_wf(r.0@),
        r.1.wf(),
{
    let ghost target = pairs_view(collected@);
    proof {
        lemma_pairs_view_index(collected@);
    }
    let mut out: Vec<Expression<I>> = Vec::new();
    let mut constant = Bignum::from_u32(1);
    let n = collected.len();
    let mut i: usize = 0;
    proof {
        assert(exprs_view(out@) =~= Seq::<ExprModel<I::IdView>>::empty());
        assert(target.skip(0) =~= target);
    }
    while i < n
        invariant
            pairs_wf(collected@),
            n == collected@.len(),
            0 <= i <= n,
            target == pairs_view(collected@),
            target.len() == n,
            forall|j: int| 0 <= j < n ==> #[trigger] target[j] == ((
                collected@[j].0@,
                collected@[j].1@,
            )),
            power_factors(target) == exprs_view(out@) + power_factors(target.skip(i as int)),
            constant@ * power_constant(target.skip(i as int)) == power_constant(target),
            exprs_wf(out@),
            constant.wf(),
        decreases n - i,
    {
        proof {
            assert(target.skip(i as int)[0] == target[i as int]);
            assert(target.skip(i as int).drop_first() =~= target.skip(i + 1));
        }
        let built = int_power_exec(collected[i].1.duplicate(), collected[i].0.duplicate());
        let ghost built_model = int_power(target[i as int].1, target[i as int].0);
        proof {
            crate::expression::lemma_view_variant(built);
        }
        match built {
            Expression::Integer(k) => {
                let ghost c_old = constant@;
                constant = big_mul(&constant, &k);
                proof {
                    assert(built_model is Integer && built_model->Integer_0 == k@);
                    assert(c_old * (k@ * power_constant(target.skip(i + 1))) == (c_old * k@)
                        * power_constant(target.skip(i + 1))) by (nonlinear_arith);
                    assert(power_factors(target) =~= exprs_view(out@) + power_factors(
                        target.skip(i + 1),
                    ));
                }
            },
            other => {
                proof {
                    lemma_exprs_view_push(out@, other);
                    lemma_exprs_wf_push(out@, other);
                    assert(other@ == built_model);
                }
                out.push(other);
                proof {
                    assert(power_factors(target) =~= exprs_view(out@) + power_factors(
                        target.skip(i + 1),
                    ));
                }
            },
        }
        i += 1;
    }
    proof {
        assert(target.skip(n as int) =~= Seq::empty());
        assert(exprs_view(out@) + power_factors(target.skip(n as int)) =~= exprs_view(out@));
    }
    (out, constant)
}

/// Appends every tree of `more` to `kept`, in order.
fn append_all<I: Identifier>(kept: &mut Vec<Expression<I>>, more: Vec<Expression<I>>)
    requires
        exprs_wf(old(kept)@),
        exprs_wf(more@),
    ensures
        exprs_view(final(kept)@) == exprs_view(old(kept)@) + exprs_view(more@),
        exprs_wf(final(kept)@),
{
    let ghost base = exprs_view(kept@);
    let ghost target = exprs_view(more@);
    proof {
        lemma_exprs_view_index(more@);
        assert(target.take(0) =~= Seq::<ExprModel<I::IdView>>::empty());
        assert(exprs_view(kept@) =~= base + target.take(0));
    }
    let n = more.len();
    let mut i: usize = 0;
    while i < n
        invariant
            exprs_wf(more@),
            n == more@.len(),
            0 <= i <= n,
            base.len() >= 0,
            target == exprs_view(more@),
            target.len() == n,
            forall|j: int| 0 <= j < n ==> #[trigger] target[j] == more@[j]@,
            exprs_view(kept@) == base + target.take(i as int),
            exprs_wf(kept@),
        decreases n - i,
    {
        proof {
            lemma_exprs_wf_index(more@);
        }
        let elem = more[i].duplicate();
        proof {
            lemma_exprs_view_push(kept@, elem);
            lemma_exprs_wf_push(kept@, elem);
            assert(target.take(i + 1) =~= target.take(i as int).push(target[i as int]));
        }
        kept.push(elem);
        proof {
            assert(exprs_view(kept@) =~= base + target.take(i + 1));
        }
        i += 1;
    }
    proof {
        assert(target.take(n as int) =~= target);
    }
}

/// The models of a vector of weighted trees, in order.
pub open spec fn pairs_view<I: Identifier>(s: Seq<(Bignum, Expression<I>)>) -> Seq<
    (int, ExprModel<I::IdView>),
>
    decreases s,
{
    if s.len() == 0 {
        Seq::empty()
    } else {
        seq![(s[0].0@, s[0].1@)] + pairs_view(s.drop_first())
    }
}

/// `pairs_view` maps the views over the vector, index by index.
pub proof fn lemma_pairs_view_index<I: Identifier>(s: Seq<(Bignum, Expression<I>)>)
    ensures
        pairs_view(s).len() == s.len(),
        forall|i: int| 0 <= i < s.len() ==> #[trigger] pairs_view(s)[i] == ((s[i].0@, s[i].1@)),
    decreases s.len(),
{
    if s.len() > 0 {
        lemma_pairs_view_index(s.drop_first());
        assert forall|i: int| 0 <= i < s.len() implies #[trigger] pairs_view(s)[i] == ((
        s[i].0@,
        s[i].1@,
        )) by {
            if i > 0 {
                assert(s.drop_first()[i - 1] == s[i]);
            }
        }
    }
}

/// Every weight is canonical and every tree well-formed.
pub open spec fn pairs_wf<I: Identifier>(s: Seq<(Bignum, Expression<I>)>) -> bool {
    forall|i: int| 0 <= i < s.len() ==> (#[trigger] s[i]).0.wf() && expr_wf(s[i].1)
}

/// Splits the members of a reduced, flattened vector into collectable pairs
/// and the members collection leaves alone.
fn split_members<I: Identifier>(v: &Vec<Expression<I>>, of_sum: bool) -> (r: (
    Vec<(Bignum, Expression<I>)>,
    Vec<Expression<I>>,
))
    requires
        exprs_wf(v@),
    ensures
        pairs_view(r.0@) == split_pairs(exprs_view(v@), of_sum),
        exprs_view(r.1@) == opaque_members(exprs_view(v@), of_sum),
        pairs_wf(r.0@),
        exprs_wf(r.1@),
{
    let ghost target = exprs_view(v@);
    proof {
        lemma_exprs_view_index(v@);
    }
    let mut pairs: Vec<(Bignum, Expression<I>)> = Vec::new();
    let mut opaques: Vec<Expression<I>> = Vec::new();
    let n = v.len();
    let mut i: usize = 0;
    proof {
        assert(pairs_view(pairs@) =~= Seq::<(int, ExprModel<I::IdView>)>::empty());
        assert(exprs_view(opaques@) =~= Seq::<ExprModel<I::IdView>>::empty());
        assert(target.skip(0) =~= target);
    }
    while i < n
        invariant
            exprs_wf(v@),
            n == v@.len(),
            0 <= i <= n,
            target == exprs_view(v@),
            target.len() == n,
            forall|j: int| 0 <= j < n ==> #[trigger] target[j] == v@[j]@,
            split_pairs(target, of_sum) == pairs_view(pairs@) + split_pairs(
                target.skip(i as int),
                of_sum,
            ),
            opaque_members(target, of_sum) == exprs_view(opaques@) + opaque_members(
                target.skip(i as int),
                of_sum,
            ),
            pairs_wf(pairs@),
            exprs_wf(opaques@),
        decreases n - i,
    {
        proof {
            lemma_exprs_wf_index(v@);
            assert(target.skip(i as int)[0] == target[i as int]);
            assert(target.skip(i as int).drop_first() =~= target.skip(i + 1));
            lemma_pairs_view_index(pairs@);
        }
        let m = &v[i];
        let splits = if of_sum {
            match m {
                Expression::Sum(_) => false,
                Expression::Product(fs) => {
                    fs.len() == 2 && matches!(&fs[0], Expression::Integer(_)) && matches!(
                        &fs[1],
                        Expression::Variable(_)
                            | Expression::Power(_)
                            | Expression::Exponential(_)
                            | Expression::Logarithm(_)
                            | Expression::Quotient(_),
                    )
                },
                Expression::Integer(_) => false,
                _ => true,
            }
        } else {
            match m {
                Expression::Integer(_) => false,
                Expression::Product(_) => false,
                Expression::Power(ops) => !(matches!(&ops.1, Expression::Integer(_)) && matches!(
                    &ops.0,
                    Expression::Product(_),
                )),
                _ => true,
            }
        };
        proof {
            crate::expression::lemma_view_variant(v@[i as int]);
            if of_sum {
                if v@[i as int] is Product {
                    lemma_exprs_view_index(v@[i as int]->Product_0@);
                    if v@[i as int]->Product_0@.len() >= 1 {
                        crate::expression::lemma_view_variant(v@[i as int]->Product_0@[0]);
                    }
                    if v@[i as int]->Product_0@.len() >= 2 {
                        crate::expression::lemma_view_variant(v@[i as int]->Product_0@[1]);
                    }
                }
                assert(splits == term_splits(target[i as int]));
            } else {
                if v@[i as int] is Power {
                    crate::expression::lemma_view_variant(v@[i as int]->Power_0.0);
                    crate::expression::lemma_view_variant(v@[i as int]->Power_0.1);
                }
                assert(splits == factor_splits(target[i as int]));
            }
        }
        if splits {
            let pair = if of_sum {
                match m {
                    Expression::Product(fs) => {
                        let c = match &fs[0] {
                            Expression::Integer(k) => k.duplicate(),
                            _ => Bignum::zero(),
                        };
                        proof {
                            lemma_exprs_wf_index(m->Product_0@);
                            lemma_exprs_view_index(m->Product_0@);
                        }
                        (c, fs[1].duplicate())
                    },
                    other => (Bignum::from_u32(1), other.duplicate()),
                }
            } else {
                match m {
                    Expression::Power(ops) => {
                        match &ops.1 {
                            Expression::Integer(e) => (e.duplicate(), ops.0.duplicate()),
                            _ => (Bignum::from_u32(1), m.duplicate()),
                        }
                    },
                    other => (Bignum::from_u32(1), other.duplicate()),
                }
            };
            proof {
                assert(pair.0.wf() && expr_wf(pair.1)) by {
                    reveal_with_fuel(expr_wf, 3);
                    if v@[i as int] is Product {
                        lemma_exprs_wf_index(v@[i as int]->Product_0@);
                    }
                }
                assert(pairs_wf(pairs@.push(pair))) by {
                    assert forall|j: int| 0 <= j < pairs@.push(pair).len() implies (
                    #[trigger] pairs@.push(pair)[j]).0.wf() && expr_wf(
                        pairs@.push(pair)[j].1,
                    ) by {
                        if j < pairs@.len() {
                            assert(pairs@.push(pair)[j] == pairs@[j]);
                        } else {
                            assert(pairs@.push(pair)[j] == pair);
                        }
                    }
                }
                if of_sum {
                    assert((pair.0@, pair.1@) == (
                        term_coeff(target[i as int]),
                        term_base(target[i as int]),
                    ));
                } else {
                    assert((pair.0@, pair.1@) == (
                        factor_exp(target[i as int]),
                        factor_base(target[i as int]),
                    ));
                }
                lemma_pairs_view_index(pairs@.push(pair));
                assert(pairs_view(pairs@.push(pair)) =~= pairs_view(pairs@).push(
                    (pair.0@, pair.1@),
                )) by {
                    lemma_pairs_view_index(pairs@);
                }
            }
            pairs.push(pair);
            proof {
                assert(split_pairs(target, of_sum) =~= pairs_view(pairs@) + split_pairs(
                    target.skip(i + 1),
                    of_sum,
                ));
                assert(opaque_members(target, of_sum) =~= exprs_view(opaques@) + opaque_members(
                    target.skip(i + 1),
                    of_sum,
                ));
            }
        } else {
            let elem = m.duplicate();
            proof {
                lemma_exprs_view_push(opaques@, elem);
                lemma_exprs_wf_push(opaques@, elem);
            }
            opaques.push(elem);
            proof {
                assert(split_pairs(target, of_sum) =~= pairs_view(pairs@) + split_pairs(
                    target.skip(i + 1),
                    of_sum,
                ));
                assert(opaque_members(target, of_sum) =~= exprs_view(opaques@) + opaque_members(
                    target.skip(i + 1),
                    of_sum,
                ));
            }
        }
        i += 1;
    }
    proof {
        assert(target.skip(n as int) =~= Seq::empty());
        assert(pairs_view(pairs@) + split_pairs(target.skip(n as int), of_sum) =~= pairs_view(
            pairs@,
        ));
        assert(exprs_view(opaques@) + opaque_members(target.skip(n as int), of_sum) =~= exprs_view(
            opaques@,
        ));
    }
    (pairs, opaques)
}

/// Merges weighted pairs with equal bases, summing their weights, bases kept
/// in first-occurrence order.
fn collect_members<I: Identifier>(pairs: Vec<(Bignum, Expression<I>)>) -> (r: Vec<
    (Bignum, Expression<I>),
>)
    requires
        pairs_wf(pairs@),
    ensures
        pairs_view(r@) == collect_pairs(pairs_view(pairs@)),
        pairs_wf(r@),
    decreases pairs@.len(),
{
    proof {
        lemma_pairs_view_index(pairs@);
    }
    if pairs.len() == 0 {
        let r: Vec<(Bignum, Expression<I>)> = Vec::new();
        proof {
            assert(pairs_view(r@) =~= collect_pairs(pairs_view(pairs@)));
        }
        return r;
    }
    let ghost whole = pairs_view(pairs@);
    let mut rest = pairs;
    let head = rest.remove(0);
    proof {
        assert(pairs_view(rest@) =~= whole.drop_first()) by {
            lemma_pairs_view_index(rest@);
            lemma_pairs_view_index(pairs@);
            assert forall|j: int| 0 <= j < rest@.len() implies #[trigger] pairs_view(rest@)[j]
                == whole.drop_first()[j] by {
                assert(pairs_view(rest@)[j] == ((rest@[j].0@, rest@[j].1@)));
            }
        }
    }
    let ghost tail = whole.drop_first();
    let ghost b0 = head.1@;
    let mut total = head.0;
    let mut kept: Vec<(Bignum, Expression<I>)> = Vec::new();
    let n = rest.len();
    let mut i: usize = 0;
    proof {
        assert(pairs_view(kept@) =~= Seq::<(int, ExprModel<I::IdView>)>::empty());
        assert(tail.skip(0) =~= tail);
        lemma_pairs_view_index(rest@);
        lemma_exprs_wf_index(Seq::<Expression<I>>::empty());
    }
    while i < n
        invariant
            n == rest@.len(),
            0 <= i <= n,
            pairs_wf(rest@),
            expr_wf(head.1),
            tail == pairs_view(rest@),
            tail.len() == n,
            forall|j: int| 0 <= j < n ==> #[trigger] tail[j] == ((rest@[j].0@, rest@[j].1@)),
            b0 == head.1@,
            total.wf(),
            total@ + weight_of(tail.skip(i as int), b0) == head.0@ + weight_of(tail, b0),
            drop_base(tail, b0) == pairs_view(kept@) + drop_base(tail.skip(i as int), b0),
            pairs_wf(kept@),
            kept@.len() <= i,
        decreases n - i,
    {
        proof {
            assert(tail.skip(i as int)[0] == tail[i as int]);
            assert(tail.skip(i as int).drop_first() =~= tail.skip(i + 1));
            lemma_pairs_view_index(kept@);
        }
        if rest[i].1.same_tree(&head.1) {
            total = big_add(&total, &rest[i].0);
        } else {
            let pair = (rest[i].0.duplicate(), rest[i].1.duplicate());
            proof {
                lemma_pairs_view_index(kept@.push(pair));
                assert(pairs_view(kept@.push(pair)) =~= pairs_view(kept@).push(
                    (pair.0@, pair.1@),
                )) by {
                    lemma_pairs_view_index(kept@);
                }
                assert(pairs_wf(kept@.push(pair))) by {
                    assert forall|j: int| 0 <= j < kept@.push(pair).len() implies (
                    #[trigger] kept@.push(pair)[j]).0.wf() && expr_wf(kept@.push(pair)[j].1) by {
                        if j < kept@.len() {
                            assert(kept@.push(pair)[j] == kept@[j]);
                        } else {
                            assert(kept@.push(pair)[j] == pair);
                        }
                    }
                }
            }
            kept.push(pair);
            proof {
                assert(drop_base(tail, b0) =~= pairs_view(kept@) + drop_base(
                    tail.skip(i + 1),
                    b0,
                ));
            }
        }
        i += 1;
    }
    proof {
        assert(tail.skip(n as int) =~= Seq::empty());
        assert(pairs_view(kept@) + drop_base(tail.skip(n as int), b0) =~= pairs_view(kept@));
        lemma_drop_base_len(tail, b0);
        assert(kept@.len() < pairs@.len());
    }
    let tail_collected = collect_members(kept);
    let mut out: Vec<(Bignum, Expression<I>)> = Vec::new();
    let ghost head_pair = (total@, b0);
    out.push((total, head.1));
    let m = tail_collected.len();
    let mut k: usize = 0;
    proof {
        lemma_pairs_view_index(out@);
        assert(pairs_view(out@) =~= seq![head_pair]);
        assert(pairs_wf(out@)) by {
            assert(out@[0].0.wf() && expr_wf(out@[0].1));
        }
    }
    while k < m
        invariant
            m == tail_collected@.len(),
            0 <= k <= m,
            pairs_wf(tail_collected@),
            pairs_view(out@) == seq![head_pair] + pairs_view(tail_collected@).take(k as int),
            pairs_wf(out@),
        decreases m - k,
    {
        proof {
            lemma_pairs_view_index(tail_collected@);
        }
        let pair = (tail_collected[k].0.duplicate(), tail_collected[k].1.duplicate());
        proof {
            lemma_pairs_view_index(out@.push(pair));
            lemma_pairs_view_index(out@);
            assert(pairs_view(out@.push(pair)) =~= pairs_view(out@).push((pair.0@, pair.1@)));
            assert(pairs_view(tail_collected@).take(k + 1) =~= pairs_view(
                tail_collected@,
            ).take(k as int).push(pairs_view(tail_collected@)[k as int]));
            assert(pairs_wf(out@.push(pair))) by {
                assert forall|j: int| 0 <= j < out@.push(pair).len() implies (
                #[trigger] out@.push(pair)[j]).0.wf() && expr_wf(out@.push(pair)[j].1) by {
                    if j < out@.len() {
                        assert(out@.push(pair)[j] == out@[j]);
                    } else {
                        assert(out@.push(pair)[j] == pair);
                    }
                }
            }
        }
        out.push(pair);
        k += 1;
    }
    proof {
        lemma_pairs_view_index(tail_collected@);
        assert(pairs_view(tail_collected@).take(m as int) =~= pairs_view(tail_collected@));
        assert(pairs_view(out@) =~= collect_pairs(whole)) by {
            assert(collect_pairs(whole) == seq![
                (whole[0].0 + weight_of(whole.drop_first(), whole[0].1), whole[0].1),
            ] + collect_pairs(drop_base(whole.drop_first(), whole[0].1)));
            assert(whole[0] == (head.0@, b0));
            assert(total@ == head.0@ + weight_of(tail, b0));
            assert(pairs_view(tail_collected@) == collect_pairs(pairs_view(kept@)));
        }
    }
    out
}

} // verus!
