use vstd::prelude::*;
use crate::arith::{gcd_int, lemma_quotient_reduction, lemma_gcd_one_fixed};
use crate::expression::ExprModel;
use crate::reduce::{
    reduce_seq, flatten_sums, flatten_products, non_integers, sum_integers, prod_integers,
    build_sum, build_product, build_quotient, build_power, spec_reduce, canonical_seq,
    is_canonical, sum_members_ok, product_members_ok, max_folded_exponent, is_simple,
    is_int_power, int_power, term_splits, term_coeff, term_base, term_expr, factor_splits,
    factor_base, factor_exp, split_pairs, opaque_members, weight_of, drop_base, collect_pairs,
    sum_terms, power_factors, power_constant, lemma_drop_base_len,
};

verus! {

/// No element of the sequence is a `Sum`.
pub open spec fn no_sums<ID>(s: Seq<ExprModel<ID>>) -> bool {
    forall|i: int| 0 <= i < s.len() ==> !((#[trigger] s[i]) is Sum)
}

/// No element of the sequence is a `Product`.
pub open spec fn no_products<ID>(s: Seq<ExprModel<ID>>) -> bool {
    forall|i: int| 0 <= i < s.len() ==> !((#[trigger] s[i]) is Product)
}

/// No element of the sequence is an integer literal.
pub open spec fn no_integers<ID>(s: Seq<ExprModel<ID>>) -> bool {
    forall|i: int| 0 <= i < s.len() ==> !((#[trigger] s[i]) is Integer)
}

/// `reduce_seq` maps `spec_reduce` over the sequence, index by index.
pub proof fn lemma_reduce_seq_index<ID>(s: Seq<ExprModel<ID>>)
    ensures
        reduce_seq(s).len() == s.len(),
        forall|i: int| 0 <= i < s.len() ==> #[trigger] reduce_seq(s)[i] == spec_reduce(s[i]),
    decreases s.len(),
{
    if s.len() > 0 {
        lemma_reduce_seq_index(s.drop_first());
        assert forall|i: int| 0 <= i < s.len() implies #[trigger] reduce_seq(s)[i] == spec_reduce(
            s[i],
        ) by {
            if i > 0 {
                assert(s.drop_first()[i - 1] == s[i]);
            }
        }
    }
}

/// `canonical_seq` holds exactly when every element is canonical.
pub proof fn lemma_canonical_seq_index<ID>(s: Seq<ExprModel<ID>>)
    ensures
        canonical_seq(s) <==> (forall|i: int| 0 <= i < s.len() ==> is_canonical(#[trigger] s[i])),
    decreases s.len(),
{
    if s.len() > 0 {
        lemma_canonical_seq_index(s.drop_first());
        if canonical_seq(s) {
            assert forall|i: int| 0 <= i < s.len() implies is_canonical(#[trigger] s[i]) by {
                if i > 0 {
                    assert(s.drop_first()[i - 1] == s[i]);
                }
            }
        }
        if forall|i: int| 0 <= i < s.len() ==> is_canonical(#[trigger] s[i]) {
            assert forall|i: int| 0 <= i < s.drop_first().len() implies is_canonical(
                #[trigger] s.drop_first()[i],
            ) by {
                assert(s.drop_first()[i] == s[i + 1]);
            }
        }
    }
}

/// `canonical_seq` splits over concatenation.
pub proof fn lemma_canonical_seq_concat<ID>(s: Seq<ExprModel<ID>>, t: Seq<ExprModel<ID>>)
    ensures
        canonical_seq(s + t) <==> (canonical_seq(s) && canonical_seq(t)),
    decreases s.len(),
{
    if s.len() == 0 {
        assert(s + t =~= t);
    } else {
        assert((s + t).drop_first() =~= s.drop_first() + t);
        lemma_canonical_seq_concat(s.drop_first(), t);
        assert((s + t)[0] == s[0]);
    }
}

/// `flatten_sums` distributes over concatenation.
pub proof fn lemma_flatten_sums_concat<ID>(s: Seq<ExprModel<ID>>, t: Seq<ExprModel<ID>>)
    ensures
        flatten_sums(s + t) == flatten_sums(s) + flatten_sums(t),
    decreases s.len(),
{
    if s.len() == 0 {
        assert(s + t =~= t);
        assert(flatten_sums(s) + flatten_sums(t) =~= flatten_sums(t));
    } else {
        assert((s + t).drop_first() =~= s.drop_first() + t);
        lemma_flatten_sums_concat(s.drop_first(), t);
        assert((s + t)[0] == s[0]);
        assert(flatten_sums(s + t) =~= flatten_sums(s) + flatten_sums(t));
    }
}

/// `flatten_products` distributes over concatenation.
pub proof fn lemma_flatten_products_concat<ID>(s: Seq<ExprModel<ID>>, t: Seq<ExprModel<ID>>)
    ensures
        flatten_products(s + t) == flatten_products(s) + flatten_products(t),
    decreases s.len(),
{
    if s.len() == 0 {
        assert(s + t =~= t);
        assert(flatten_products(s) + flatten_products(t) =~= flatten_products(t));
    } else {
        assert((s + t).drop_first() =~= s.drop_first() + t);
        lemma_flatten_products_concat(s.drop_first(), t);
        assert((s + t)[0] == s[0]);
        assert(flatten_products(s + t) =~= flatten_products(s) + flatten_products(t));
    }
}

/// `non_integers` distributes over concatenation.
pub proof fn lemma_non_integers_concat<ID>(s: Seq<ExprModel<ID>>, t: Seq<ExprModel<ID>>)
    ensures
        non_integers(s + t) == non_integers(s) + non_integers(t),
    decreases s.len(),
{
    if s.len() == 0 {
        assert(s + t =~= t);
        assert(non_integers(s) + non_integers(t) =~= non_integers(t));
    } else {
        assert((s + t).drop_first() =~= s.drop_first() + t);
        lemma_non_integers_concat(s.drop_first(), t);
        assert((s + t)[0] == s[0]);
        assert(non_integers(s + t) =~= non_integers(s) + non_integers(t));
    }
}

/// `sum_integers` adds over concatenation.
pub proof fn lemma_sum_integers_concat<ID>(s: Seq<ExprModel<ID>>, t: Seq<ExprModel<ID>>)
    ensures
        sum_integers(s + t) == sum_integers(s) + sum_integers(t),
    decreases s.len(),
{
    if s.len() == 0 {
        assert(s + t =~= t);
    } else {
        assert((s + t).drop_first() =~= s.drop_first() + t);
        lemma_sum_integers_concat(s.drop_first(), t);
        assert((s + t)[0] == s[0]);
    }
}

/// `prod_integers` multiplies over concatenation.
pub proof fn lemma_prod_integers_concat<ID>(s: Seq<ExprModel<ID>>, t: Seq<ExprModel<ID>>)
    ensures
        prod_integers(s + t) == prod_integers(s) * prod_integers(t),
    decreases s.len(),
{
    if s.len() == 0 {
        assert(s + t =~= t);
    } else {
        assert((s + t).drop_first() =~= s.drop_first() + t);
        lemma_prod_integers_concat(s.drop_first(), t);
        assert((s + t)[0] == s[0]);
        let h = if s[0] is Integer {
            s[0]->Integer_0
        } else {
            1
        };
        assert(h * (prod_integers(s.drop_first()) * prod_integers(t)) == (h * prod_integers(
            s.drop_first(),
        )) * prod_integers(t)) by (nonlinear_arith);
    }
}

/// Properties of `non_integers`: its elements are the non-integer elements of
/// the argument, in order, and they all occur in the argument.
pub proof fn lemma_non_integers_elements<ID>(s: Seq<ExprModel<ID>>)
    ensures
        no_integers(non_integers(s)),
        forall|i: int| 0 <= i < non_integers(s).len() ==> exists|j: int|
            0 <= j < s.len() && #[trigger] non_integers(s)[i] == s[j],
    decreases s.len(),
{
    if s.len() > 0 {
        lemma_non_integers_elements(s.drop_first());
        let ni = non_integers(s);
        let rest = non_integers(s.drop_first());
        assert forall|i: int| 0 <= i < ni.len() implies !((#[trigger] ni[i]) is Integer)
            && exists|j: int| 0 <= j < s.len() && ni[i] == s[j] by {
            if s[0] is Integer {
                assert(ni =~= rest);
                assert(ni[i] == rest[i]);
                let j0 = choose|j: int| 0 <= j < s.drop_first().len() && #[trigger] rest[i]
                    == s.drop_first()[j];
                assert(ni[i] == s[j0 + 1]);
            } else {
                if i == 0 {
                    assert(ni[0] == s[0]);
                } else {
                    assert(ni[i] == rest[i - 1]);
                    let j0 = choose|j: int| 0 <= j < s.drop_first().len() && #[trigger] rest[i - 1]
                        == s.drop_first()[j];
                    assert(ni[i] == s[j0 + 1]);
                }
            }
        }
    }
}

/// A sequence with no integer literals passes through `non_integers`
/// unchanged and folds to the neutral constants.
pub proof fn lemma_all_non_integers<ID>(s: Seq<ExprModel<ID>>)
    requires
        no_integers(s),
    ensures
        non_integers(s) == s,
        sum_integers(s) == 0,
        prod_integers(s) == 1,
    decreases s.len(),
{
    if s.len() == 0 {
        assert(non_integers(s) =~= s);
    } else {
        assert forall|i: int| 0 <= i < s.drop_first().len() implies !((#[trigger] s.drop_first()[i])
            is Integer) by {
            assert(s.drop_first()[i] == s[i + 1]);
        }
        lemma_all_non_integers(s.drop_first());
        assert(non_integers(s) =~= s);
    }
}

/// A sequence whose only integer literal stands last folds to that integer
/// and drops it from `non_integers`.
pub proof fn lemma_trailing_integer<ID>(s: Seq<ExprModel<ID>>)
    requires
        s.len() >= 1,
        forall|i: int| 0 <= i < s.len() - 1 ==> !((#[trigger] s[i]) is Integer),
        s.last() is Integer,
    ensures
        non_integers(s) == s.drop_last(),
        sum_integers(s) == s.last()->Integer_0,
        prod_integers(s) == s.last()->Integer_0,
    decreases s.len(),
{
    if s.len() == 1 {
        reveal_with_fuel(non_integers, 2);
        reveal_with_fuel(sum_integers, 2);
        reveal_with_fuel(prod_integers, 2);
        assert(non_integers(s) =~= s.drop_last());
    } else {
        let rest = s.drop_first();
        assert(rest.last() == s.last());
        assert forall|i: int| 0 <= i < rest.len() - 1 implies !((#[trigger] rest[i]) is Integer) by {
            assert(rest[i] == s[i + 1]);
        }
        lemma_trailing_integer(rest);
        assert(!(s[0] is Integer));
        assert(non_integers(s) =~= s.drop_last()) by {
            assert(rest.drop_last() =~= s.drop_last().drop_first());
            assert(non_integers(s) =~= seq![s[0]] + rest.drop_last());
            assert(seq![s[0]] + s.drop_last().drop_first() =~= s.drop_last());
        }
    }
}

/// A sequence with no `Sum` elements passes through `flatten_sums` unchanged.
pub proof fn lemma_flatten_sums_id<ID>(s: Seq<ExprModel<ID>>)
    requires
        no_sums(s),
    ensures
        flatten_sums(s) == s,
    decreases s.len(),
{
    if s.len() == 0 {
        assert(flatten_sums(s) =~= s);
    } else {
        assert forall|i: int| 0 <= i < s.drop_first().len() implies !((#[trigger] s.drop_first()[i])
            is Sum) by {
            assert(s.drop_first()[i] == s[i + 1]);
        }
        lemma_flatten_sums_id(s.drop_first());
        assert(!(s[0] is Sum));
        assert(flatten_sums(s) =~= s);
    }
}

/// A sequence with no `Product` elements passes through `flatten_products`
/// unchanged.
pub proof fn lemma_flatten_products_id<ID>(s: Seq<ExprModel<ID>>)
    requires
        no_products(s),
    ensures
        flatten_products(s) == s,
    decreases s.len(),
{
    if s.len() == 0 {
        assert(flatten_products(s) =~= s);
    } else {
        assert forall|i: int| 0 <= i < s.drop_first().len() implies !((#[trigger] s.drop_first()[i])
            is Product) by {
            assert(s.drop_first()[i] == s[i + 1]);
        }
        lemma_flatten_products_id(s.drop_first());
        assert(!(s[0] is Product));
        assert(flatten_products(s) =~= s);
    }
}

} // verus!

verus! {

/// Flattening a sequence of canonical elements yields canonical elements,
/// none of which is a `Sum`.
pub proof fn lemma_flatten_sums_canonical<ID>(s: Seq<ExprModel<ID>>)
    requires
        canonical_seq(s),
    ensures
        canonical_seq(flatten_sums(s)),
        no_sums(flatten_sums(s)),
    decreases s.len(),
{
    if s.len() > 0 {
        let rest = s.drop_first();
        lemma_canonical_seq_index(s);
        lemma_canonical_seq_index(rest);
        assert forall|i: int| 0 <= i < rest.len() implies is_canonical(#[trigger] rest[i]) by {
            assert(rest[i] == s[i + 1]);
        }
        lemma_flatten_sums_canonical(rest);
        let head = s[0];
        let headpart = (match head {
            ExprModel::Sum(inner) => inner,
            other => seq![other],
        });
        if head is Sum {
            let inner = head->Sum_0;
            lemma_canonical_seq_concat(inner, flatten_sums(rest));
        } else {
            reveal_with_fuel(canonical_seq, 2);
            lemma_canonical_seq_concat(seq![head], flatten_sums(rest));
        }
        assert(flatten_sums(s) == headpart + flatten_sums(rest));
        lemma_canonical_seq_index(flatten_sums(rest));
        assert forall|i: int| 0 <= i < flatten_sums(s).len() implies !((#[trigger] flatten_sums(
            s,
        )[i]) is Sum) by {
            if i < headpart.len() {
                assert(flatten_sums(s)[i] == headpart[i]);
            } else {
                assert(flatten_sums(s)[i] == flatten_sums(rest)[i - headpart.len()]);
            }
        }
    }
}

/// Flattening a sequence of canonical elements yields canonical elements,
/// none of which is a `Product`.
pub proof fn lemma_flatten_products_canonical<ID>(s: Seq<ExprModel<ID>>)
    requires
        canonical_seq(s),
    ensures
        canonical_seq(flatten_products(s)),
        no_products(flatten_products(s)),
    decreases s.len(),
{
    if s.len() > 0 {
        let rest = s.drop_first();
        lemma_canonical_seq_index(s);
        lemma_canonical_seq_index(rest);
        assert forall|i: int| 0 <= i < rest.len() implies is_canonical(#[trigger] rest[i]) by {
            assert(rest[i] == s[i + 1]);
        }
        lemma_flatten_products_canonical(rest);
        let head = s[0];
        let headpart = (match head {
            ExprModel::Product(inner) => inner,
            other => seq![other],
        });
        if head is Product {
            let inner = head->Product_0;
            lemma_canonical_seq_concat(inner, flatten_products(rest));
        } else {
            reveal_with_fuel(canonical_seq, 2);
            lemma_canonical_seq_concat(seq![head], flatten_products(rest));
        }
        assert(flatten_products(s) == headpart + flatten_products(rest));
        lemma_canonical_seq_index(flatten_products(rest));
        assert forall|i: int| 0 <= i < flatten_products(s).len() implies !((
        #[trigger] flatten_products(s)[i]) is Product) by {
            if i < headpart.len() {
                assert(flatten_products(s)[i] == headpart[i]);
            } else {
                assert(flatten_products(s)[i] == flatten_products(rest)[i - headpart.len()]);
            }
        }
    }
}

/// The collected sum terms: canonical collectable members with pairwise
/// distinct bases taken from the collected pairs.
pub proof fn lemma_sum_terms_members<ID>(c: Seq<(int, ExprModel<ID>)>)
    requires
        forall|k: int| 0 <= k < c.len() ==> is_canonical((#[trigger] c[k]).1) && is_simple(
            c[k].1,
        ),
        forall|k1: int, k2: int|
            0 <= k1 < k2 < c.len() ==> (#[trigger] c[k1]).1 != (#[trigger] c[k2]).1,
    ensures
        forall|k: int| 0 <= k < sum_terms(c).len() ==> is_canonical(#[trigger] sum_terms(c)[k])
            && term_splits(sum_terms(c)[k]) && !(sum_terms(c)[k] is Sum) && !(sum_terms(c)[k]
            is Integer),
        forall|k: int| 0 <= k < sum_terms(c).len() ==> exists|j: int|
            0 <= j < c.len() && term_base(#[trigger] sum_terms(c)[k]) == c[j].1,
        forall|k1: int, k2: int|
            0 <= k1 < k2 < sum_terms(c).len() ==> term_base(#[trigger] sum_terms(c)[k1])
                != term_base(#[trigger] sum_terms(c)[k2]),
    decreases c.len(),
{
    if c.len() > 0 {
        let rest = c.drop_first();
        assert forall|k: int| 0 <= k < rest.len() implies is_canonical((#[trigger] rest[k]).1)
            && is_simple(rest[k].1) by {
            assert(rest[k] == c[k + 1]);
        }
        assert forall|k1: int, k2: int| 0 <= k1 < k2 < rest.len() implies (
        #[trigger] rest[k1]).1 != (#[trigger] rest[k2]).1 by {
            assert(rest[k1] == c[k1 + 1] && rest[k2] == c[k2 + 1]);
        }
        lemma_sum_terms_members(rest);
        let out = sum_terms(c);
        let out_rest = sum_terms(rest);
        let kept_head = c[0].0 != 0;
        if kept_head {
            lemma_term_expr_member(c[0].0, c[0].1);
        }
        assert forall|k: int| 0 <= k < out.len() implies is_canonical(#[trigger] out[k])
            && term_splits(out[k]) && !(out[k] is Sum) && !(out[k] is Integer) && exists|j: int|
            0 <= j < c.len() && term_base(out[k]) == c[j].1 by {
            if kept_head && k == 0 {
                assert(out[0] == term_expr(c[0].0, c[0].1));
                assert(term_base(out[0]) == c[0].1);
            } else {
                let k2 = if kept_head {
                    k - 1
                } else {
                    k
                };
                assert(out[k] == out_rest[k2]);
                let j0 = choose|j: int|
                    0 <= j < rest.len() && term_base(#[trigger] out_rest[k2]) == rest[j].1;
                assert(rest[j0] == c[j0 + 1]);
            }
        }
        assert forall|k1: int, k2: int| 0 <= k1 < k2 < out.len() implies term_base(
            #[trigger] out[k1],
        ) != term_base(#[trigger] out[k2]) by {
            if kept_head && k1 == 0 {
                assert(out[k2] == out_rest[k2 - 1]);
                let j0 = choose|j: int|
                    0 <= j < rest.len() && term_base(#[trigger] out_rest[k2 - 1]) == rest[j].1;
                assert(rest[j0] == c[j0 + 1]);
                assert(term_base(out[0]) == c[0].1);
            } else {
                let d: int = if kept_head {
                    1
                } else {
                    0
                };
                assert(out[k1] == out_rest[k1 - d] && out[k2] == out_rest[k2 - d]);
            }
        }
    }
}

/// One collected product entry as a tree, when it does not fold to an
/// integer: a canonical collectable factor carrying the entry's base.
pub proof fn lemma_int_power_member<ID>(b: ExprModel<ID>, e: int)
    requires
        is_canonical(b),
        !(b is Product),
        !is_int_power(b),
        !(int_power(b, e) is Integer),
    ensures
        is_canonical(int_power(b, e)),
        factor_splits(int_power(b, e)),
        factor_base(int_power(b, e)) == b,
        !(int_power(b, e) is Product),
{
    lemma_int_power_canonical(b, e);
}

/// The collected product factors: canonical collectable members with pairwise
/// distinct bases taken from the collected pairs.
pub proof fn lemma_power_factors_members<ID>(c: Seq<(int, ExprModel<ID>)>)
    requires
        forall|k: int| 0 <= k < c.len() ==> is_canonical((#[trigger] c[k]).1) && !(c[k].1
            is Product) && !is_int_power(c[k].1),
        forall|k1: int, k2: int|
            0 <= k1 < k2 < c.len() ==> (#[trigger] c[k1]).1 != (#[trigger] c[k2]).1,
    ensures
        forall|k: int| 0 <= k < power_factors(c).len() ==> is_canonical(
            #[trigger] power_factors(c)[k],
        ) && factor_splits(power_factors(c)[k]) && !(power_factors(c)[k] is Integer) && !(
        power_factors(c)[k] is Product),
        forall|k: int| 0 <= k < power_factors(c).len() ==> exists|j: int|
            0 <= j < c.len() && factor_base(#[trigger] power_factors(c)[k]) == c[j].1,
        forall|k1: int, k2: int|
            0 <= k1 < k2 < power_factors(c).len() ==> factor_base(#[trigger] power_factors(c)[k1])
                != factor_base(#[trigger] power_factors(c)[k2]),
    decreases c.len(),
{
    if c.len() > 0 {
        let rest = c.drop_first();
        assert forall|k: int| 0 <= k < rest.len() implies is_canonical((#[trigger] rest[k]).1)
            && !(rest[k].1 is Product) && !is_int_power(rest[k].1) by {
            assert(rest[k] == c[k + 1]);
        }
        assert forall|k1: int, k2: int| 0 <= k1 < k2 < rest.len() implies (
        #[trigger] rest[k1]).1 != (#[trigger] rest[k2]).1 by {
            assert(rest[k1] == c[k1 + 1] && rest[k2] == c[k2 + 1]);
        }
        lemma_power_factors_members(rest);
        let out = power_factors(c);
        let out_rest = power_factors(rest);
        let kept_head = !(int_power(c[0].1, c[0].0) is Integer);
        if kept_head {
            lemma_int_power_member(c[0].1, c[0].0);
        }
        assert forall|k: int| 0 <= k < out.len() implies is_canonical(#[trigger] out[k])
            && factor_splits(out[k]) && !(out[k] is Integer) && !(out[k] is Product) && exists|
        j: int| 0 <= j < c.len() && factor_base(out[k]) == c[j].1 by {
            if kept_head && k == 0 {
                assert(out[0] == int_power(c[0].1, c[0].0));
                assert(factor_base(out[0]) == c[0].1);
            } else {
                let k2 = if kept_head {
                    k - 1
                } else {
                    k
                };
                assert(out[k] == out_rest[k2]);
                let j0 = choose|j: int|
                    0 <= j < rest.len() && factor_base(#[trigger] out_rest[k2]) == rest[j].1;
                assert(rest[j0] == c[j0 + 1]);
            }
        }
        assert forall|k1: int, k2: int| 0 <= k1 < k2 < out.len() implies factor_base(
            #[trigger] out[k1],
        ) != factor_base(#[trigger] out[k2]) by {
            if kept_head && k1 == 0 {
                assert(out[k2] == out_rest[k2 - 1]);
                let j0 = choose|j: int|
                    0 <= j < rest.len() && factor_base(#[trigger] out_rest[k2 - 1]) == rest[j].1;
                assert(rest[j0] == c[j0 + 1]);
                assert(factor_base(out[0]) == c[0].1);
            } else {
                let d: int = if kept_head {
                    1
                } else {
                    0
                };
                assert(out[k1] == out_rest[k1 - d] && out[k2] == out_rest[k2 - d]);
            }
        }
    }
}

/// Building a sum from canonical, sum-free children yields a canonical tree.
pub proof fn lemma_build_sum_canonical<ID>(flat: Seq<ExprModel<ID>>)
    requires
        canonical_seq(flat),
        no_sums(flat),
    ensures
        is_canonical(build_sum(flat)),
{
    let others = non_integers(flat);
    let total = sum_integers(flat);
    lemma_non_integers_elements(flat);
    lemma_canonical_seq_index(flat);
    assert forall|i: int| 0 <= i < others.len() implies is_canonical(#[trigger] others[i]) && !(
    others[i] is Sum) && !(others[i] is Integer) by {
        let j = choose|j: int| 0 <= j < flat.len() && #[trigger] others[i] == flat[j];
    }
    let sp = split_pairs(others, true);
    lemma_term_pairs_good(others);
    let collected = collect_pairs(sp);
    lemma_collect_props(sp);
    assert forall|k: int| 0 <= k < collected.len() implies is_canonical((
    #[trigger] collected[k]).1) && is_simple(collected[k].1) by {
        let j = choose|j: int| 0 <= j < sp.len() && #[trigger] collected[k].1 == sp[j].1;
    }
    lemma_sum_terms_members(collected);
    let terms = sum_terms(collected);
    let ops = opaque_members(others, true);
    lemma_opaque_elements(others, true);
    assert forall|k: int| 0 <= k < ops.len() implies is_canonical(#[trigger] ops[k]) && !(ops[k]
        is Sum) && !(ops[k] is Integer) && !term_splits(ops[k]) by {
        let j = choose|j: int| 0 <= j < others.len() && #[trigger] ops[k] == others[j];
    }
    let kept0 = terms + ops;
    let kept = if total == 0 {
        kept0
    } else {
        kept0.push(ExprModel::Integer(total))
    };
    assert forall|i: int| 0 <= i < kept.len() implies is_canonical(#[trigger] kept[i]) && !(
    kept[i] is Sum) && (i < kept0.len() ==> !(kept[i] is Integer)) && (i < terms.len()
        ==> term_splits(kept[i]) && exists|j: int|
        0 <= j < collected.len() && term_base(kept[i]) == collected[j].1) && (terms.len() <= i
        < kept0.len() ==> !term_splits(kept[i])) by {
        if i < terms.len() {
            assert(kept[i] == terms[i]);
        } else if i < kept0.len() {
            assert(kept[i] == ops[i - terms.len()]);
        } else {
            assert(kept[i] == ExprModel::<ID>::Integer(total));
        }
    }
    lemma_canonical_seq_index(kept);
    if kept.len() >= 2 {
        assert(sum_members_ok(kept)) by {
            assert forall|i: int, j: int|
                0 <= i < j < kept.len() && term_splits(#[trigger] kept[i]) && term_splits(
                    #[trigger] kept[j],
                ) implies term_base(kept[i]) != term_base(kept[j]) by {
                assert(i < terms.len() && j < terms.len());
                assert(kept[i] == terms[i] && kept[j] == terms[j]);
            }
        }
    }
}

/// Building a product from canonical, product-free children yields a
/// canonical tree.
pub proof fn lemma_build_product_canonical<ID>(flat: Seq<ExprModel<ID>>)
    requires
        canonical_seq(flat),
        no_products(flat),
    ensures
        is_canonical(build_product(flat)),
{
    let others = non_integers(flat);
    lemma_non_integers_elements(flat);
    lemma_canonical_seq_index(flat);
    assert forall|i: int| 0 <= i < others.len() implies is_canonical(#[trigger] others[i]) && !(
    others[i] is Product) && !(others[i] is Integer) by {
        let j = choose|j: int| 0 <= j < flat.len() && #[trigger] others[i] == flat[j];
    }
    let sp = split_pairs(others, false);
    lemma_factor_pairs_good(others);
    let collected = collect_pairs(sp);
    lemma_collect_props(sp);
    assert forall|k: int| 0 <= k < collected.len() implies is_canonical((
    #[trigger] collected[k]).1) && !(collected[k].1 is Product) && !is_int_power(
        collected[k].1,
    ) by {
        let j = choose|j: int| 0 <= j < sp.len() && #[trigger] collected[k].1 == sp[j].1;
    }
    lemma_power_factors_members(collected);
    let pf = power_factors(collected);
    let ops = opaque_members(others, false);
    lemma_opaque_elements(others, false);
    assert forall|k: int| 0 <= k < ops.len() implies is_canonical(#[trigger] ops[k]) && !(ops[k]
        is Product) && !(ops[k] is Integer) && !factor_splits(ops[k]) by {
        let j = choose|j: int| 0 <= j < others.len() && #[trigger] ops[k] == others[j];
    }
    let factors = pf + ops;
    let total = prod_integers(flat) * power_constant(collected);
    if total != 0 {
        let kept = if total == 1 {
            factors
        } else {
            seq![ExprModel::Integer(total)] + factors
        };
        let shift: int = if total == 1 {
            0
        } else {
            1
        };
        assert forall|i: int| 0 <= i < kept.len() implies is_canonical(#[trigger] kept[i]) && !(
        kept[i] is Product) && (i >= shift ==> !(kept[i] is Integer)) && (shift <= i < shift
            + pf.len() ==> factor_splits(kept[i]) && exists|j: int|
            0 <= j < collected.len() && factor_base(kept[i]) == collected[j].1) && (i >= shift
            + pf.len() ==> !factor_splits(kept[i])) by {
            if i < shift {
                assert(kept[i] == ExprModel::<ID>::Integer(total));
            } else if i < shift + pf.len() {
                assert(kept[i] == pf[i - shift]);
            } else {
                assert(kept[i] == ops[i - shift - pf.len()]);
            }
        }
        lemma_canonical_seq_index(kept);
        if kept.len() >= 2 {
            assert(product_members_ok(kept)) by {
                assert forall|i: int, j: int|
                    0 <= i < j < kept.len() && factor_splits(#[trigger] kept[i]) && factor_splits(
                        #[trigger] kept[j],
                    ) implies factor_base(kept[i]) != factor_base(kept[j]) by {
                    assert(shift <= i < shift + pf.len() && shift <= j < shift + pf.len());
                    assert(kept[i] == pf[i - shift] && kept[j] == pf[j - shift]);
                }
            }
        }
    }
}

/// Building a quotient from canonical operands yields a canonical tree.
pub proof fn lemma_build_quotient_canonical<ID>(n: ExprModel<ID>, d: ExprModel<ID>)
    requires
        is_canonical(n),
        is_canonical(d),
    ensures
        is_canonical(build_quotient(n, d)),
{
    if n is Integer && d is Integer {
        let a = n->Integer_0;
        let b = d->Integer_0;
        if !(a == 0 && b == 0) {
            lemma_quotient_reduction(a, b);
            let g = gcd_int(a, b) as int;
            let a2 = a / g;
            let b2 = b / g;
            assert(gcd_int(a2, b2) == 1);
            if b2 != 1 {
                let q = ExprModel::<ID>::Quotient(
                    Box::new(ExprModel::Integer(a2)),
                    Box::new(ExprModel::Integer(b2)),
                );
                assert(build_quotient(n, d) == q);
                reveal_with_fuel(is_canonical, 3);
                assert(is_canonical(q));
            }
        }
    }
}

/// Building a power from canonical operands yields a canonical tree.
pub proof fn lemma_build_power_canonical<ID>(b: ExprModel<ID>, x: ExprModel<ID>)
    requires
        is_canonical(b),
        is_canonical(x),
    ensures
        is_canonical(build_power(b, x)),
{
    if x is Integer {
        let e = x->Integer_0;
        if is_int_power(b) {
            lemma_int_power_canonical(*b->Power_0, (*b->Power_1)->Integer_0 * e);
        } else {
            lemma_int_power_canonical(b, e);
        }
    }
}

/// Normalization always yields a canonical tree.
pub proof fn lemma_reduce_canonical<ID>(e: ExprModel<ID>)
    ensures
        is_canonical(spec_reduce(e)),
    decreases e,
{
    match e {
        ExprModel::Sum(ts) => {
            lemma_reduce_seq_canonical(ts);
            lemma_flatten_sums_canonical(reduce_seq(ts));
            lemma_build_sum_canonical(flatten_sums(reduce_seq(ts)));
        },
        ExprModel::Product(fs) => {
            lemma_reduce_seq_canonical(fs);
            lemma_flatten_products_canonical(reduce_seq(fs));
            lemma_build_product_canonical(flatten_products(reduce_seq(fs)));
        },
        ExprModel::Quotient(n, d) => {
            lemma_reduce_canonical(*n);
            lemma_reduce_canonical(*d);
            lemma_build_quotient_canonical(spec_reduce(*n), spec_reduce(*d));
        },
        ExprModel::Power(b, x) => {
            lemma_reduce_canonical(*b);
            lemma_reduce_canonical(*x);
            lemma_build_power_canonical(spec_reduce(*b), spec_reduce(*x));
        },
        ExprModel::Exponential(t) => {
            lemma_reduce_canonical(*t);
        },
        ExprModel::Logarithm(t) => {
            lemma_reduce_canonical(*t);
        },
        ExprModel::Variable(_) => {},
        ExprModel::Integer(_) => {},
    }
}

/// Normalizing every element of a sequence yields canonical elements.
pub proof fn lemma_reduce_seq_canonical<ID>(s: Seq<ExprModel<ID>>)
    ensures
        canonical_seq(reduce_seq(s)),
    decreases s,
{
    if s.len() > 0 {
        lemma_reduce_canonical(s[0]);
        lemma_reduce_seq_canonical(s.drop_first());
        reveal_with_fuel(canonical_seq, 2);
        lemma_canonical_seq_concat(seq![spec_reduce(s[0])], reduce_seq(s.drop_first()));
    }
}

/// A canonical tree is a fixed point of normalization.
pub proof fn lemma_canonical_fixed<ID>(e: ExprModel<ID>)
    requires
        is_canonical(e),
    ensures
        spec_reduce(e) == e,
    decreases e,
{
    match e {
        ExprModel::Sum(ts) => {
            lemma_canonical_seq_fixed(ts);
            lemma_flatten_sums_id(ts);
            lemma_canonical_seq_index(ts);
            let others = non_integers(ts);
            let total = sum_integers(ts);
            if ts.last() is Integer {
                lemma_trailing_integer(ts);
                assert(total != 0);
                assert(others == ts.drop_last());
            } else {
                assert forall|i: int| 0 <= i < ts.len() implies !((#[trigger] ts[i]) is Integer) by {
                    if i == ts.len() - 1 {
                        assert(ts[i] == ts.last());
                    }
                }
                lemma_all_non_integers(ts);
                assert(others == ts);
            }
            // The non-integer members satisfy what rebuilding needs: each is a
            // member of the canonical sum.
            assert forall|k: int| 0 <= k < others.len() implies is_canonical(
                #[trigger] others[k],
            ) && !(others[k] is Integer) && !(others[k] is Sum) by {
                assert(others[k] == ts[k]);
            }
            lemma_canonical_seq_index(others);
            assert forall|k1: int, k2: int|
                0 <= k1 < k2 < others.len() && term_splits(#[trigger] others[k1]) && term_splits(
                    #[trigger] others[k2],
                ) implies term_base(others[k1]) != term_base(others[k2]) by {
                assert(others[k1] == ts[k1] && others[k2] == ts[k2]);
            }
            assert forall|k1: int, k2: int|
                0 <= k1 < k2 < others.len() && !term_splits(#[trigger] others[k1])
                implies !term_splits(#[trigger] others[k2]) by {
                assert(others[k1] == ts[k1] && others[k2] == ts[k2]);
            }
            lemma_sum_rebuild_id(others);
            if ts.last() is Integer {
                assert(ts.drop_last().push(ts.last()) =~= ts);
            }
            assert(build_sum(ts) == ExprModel::Sum(ts));
        },
        ExprModel::Product(fs) => {
            lemma_canonical_seq_fixed(fs);
            lemma_flatten_products_id(fs);
            lemma_canonical_seq_index(fs);
            let others = non_integers(fs);
            if fs[0] is Integer {
                lemma_leading_integer(fs);
                assert(others == fs.drop_first());
            } else {
                assert forall|i: int| 0 <= i < fs.len() implies !((#[trigger] fs[i]) is Integer) by {
                    if i > 0 {
                    }
                }
                lemma_all_non_integers(fs);
                assert(others == fs);
            }
            let shift: int = if fs[0] is Integer {
                1
            } else {
                0
            };
            assert forall|k: int| 0 <= k < others.len() implies is_canonical(
                #[trigger] others[k],
            ) && !(others[k] is Integer) && !(others[k] is Product) by {
                assert(others[k] == fs[k + shift]);
            }
            lemma_canonical_seq_index(others);
            assert forall|k1: int, k2: int|
                0 <= k1 < k2 < others.len() && factor_splits(#[trigger] others[k1])
                    && factor_splits(#[trigger] others[k2]) implies factor_base(others[k1])
                != factor_base(others[k2]) by {
                assert(others[k1] == fs[k1 + shift] && others[k2] == fs[k2 + shift]);
            }
            assert forall|k1: int, k2: int|
                0 <= k1 < k2 < others.len() && !factor_splits(#[trigger] others[k1])
                implies !factor_splits(#[trigger] others[k2]) by {
                assert(others[k1] == fs[k1 + shift] && others[k2] == fs[k2 + shift]);
            }
            lemma_product_rebuild_id(others);
            if fs[0] is Integer {
                assert(prod_integers(fs) * 1 == prod_integers(fs));
                assert(seq![fs[0]] + fs.drop_first() =~= fs);
            }
            assert(build_product(fs) == ExprModel::Product(fs));
        },
        ExprModel::Quotient(n, d) => {
            lemma_canonical_fixed(*n);
            lemma_canonical_fixed(*d);
            if (*n) is Integer && (*d) is Integer {
                let a = (*n)->Integer_0;
                let b = (*d)->Integer_0;
                assert(gcd_int(a, b) == 1);
                assert(!(a == 0 && b == 0)) by {
                    if a == 0 && b == 0 {
                        assert(gcd_int(0, 0) == 0);
                    }
                }
                lemma_gcd_one_fixed(a, b);
                assert(build_quotient(*n, *d) == e);
            }
        },
        ExprModel::Power(b, x) => {
            lemma_canonical_fixed(*b);
            lemma_canonical_fixed(*x);
            if (*x) is Integer {
                let ee = (*x)->Integer_0;
                assert(int_power(spec_reduce(*b), ee) == e) by {
                    assert(*x == ExprModel::<ID>::Integer(ee));
                }
            }
        },
        ExprModel::Exponential(t) => {
            lemma_canonical_fixed(*t);
        },
        ExprModel::Logarithm(t) => {
            lemma_canonical_fixed(*t);
        },
        ExprModel::Variable(_) => {},
        ExprModel::Integer(_) => {},
    }
}

/// A sequence of canonical trees is a fixed point of elementwise
/// normalization.
pub proof fn lemma_canonical_seq_fixed<ID>(s: Seq<ExprModel<ID>>)
    requires
        canonical_seq(s),
    ensures
        reduce_seq(s) == s,
    decreases s,
{
    if s.len() > 0 {
        lemma_canonical_fixed(s[0]);
        lemma_canonical_seq_fixed(s.drop_first());
        assert(reduce_seq(s) =~= s);
    }
}

/// Normalization is idempotent: reducing a tree twice gives the same result
/// as reducing it once.
pub proof fn lemma_reduce_idempotent<ID>(t: ExprModel<ID>)
    ensures
        spec_reduce(spec_reduce(t)) == spec_reduce(t),
{
    lemma_reduce_canonical(t);
    lemma_canonical_fixed(spec_reduce(t));
}

} // verus!

verus! {

/// `flatten_sums` over an appended element adds that element's contribution:
/// the children of a `Sum`, the element itself otherwise.
pub proof fn lemma_flatten_sums_push<ID>(s: Seq<ExprModel<ID>>, x: ExprModel<ID>)
    ensures
        flatten_sums(s.push(x)) == flatten_sums(s) + (match x {
            ExprModel::Sum(inner) => inner,
            other => seq![other],
        }),
{
    assert(s.push(x) =~= s + seq![x]);
    lemma_flatten_sums_concat(s, seq![x]);
    reveal_with_fuel(flatten_sums, 2);
    assert(seq![x].drop_first() =~= Seq::<ExprModel<ID>>::empty());
    assert(flatten_sums(seq![x]) =~= (match x {
        ExprModel::Sum(inner) => inner,
        other => seq![other],
    }));
    assert(flatten_sums(s.push(x)) =~= flatten_sums(s) + (match x {
        ExprModel::Sum(inner) => inner,
        other => seq![other],
    }));
}

/// `flatten_products` over an appended element adds that element's
/// contribution.
pub proof fn lemma_flatten_products_push<ID>(s: Seq<ExprModel<ID>>, x: ExprModel<ID>)
    ensures
        flatten_products(s.push(x)) == flatten_products(s) + (match x {
            ExprModel::Product(inner) => inner,
            other => seq![other],
        }),
{
    assert(s.push(x) =~= s + seq![x]);
    lemma_flatten_products_concat(s, seq![x]);
    reveal_with_fuel(flatten_products, 2);
    assert(seq![x].drop_first() =~= Seq::<ExprModel<ID>>::empty());
    assert(flatten_products(seq![x]) =~= (match x {
        ExprModel::Product(inner) => inner,
        other => seq![other],
    }));
    assert(flatten_products(s.push(x)) =~= flatten_products(s) + (match x {
        ExprModel::Product(inner) => inner,
        other => seq![other],
    }));
}

/// Appending an element extends `non_integers` and the two folds in the
/// expected way.
pub proof fn lemma_fold_push<ID>(s: Seq<ExprModel<ID>>, x: ExprModel<ID>)
    ensures
        non_integers(s.push(x)) == non_integers(s) + (if x is Integer {
            Seq::<ExprModel<ID>>::empty()
        } else {
            seq![x]
        }),
        sum_integers(s.push(x)) == sum_integers(s) + (if x is Integer {
            x->Integer_0
        } else {
            0
        }),
        prod_integers(s.push(x)) == prod_integers(s) * (if x is Integer {
            x->Integer_0
        } else {
            1
        }),
{
    assert(s.push(x) =~= s + seq![x]);
    lemma_non_integers_concat(s, seq![x]);
    lemma_sum_integers_concat(s, seq![x]);
    lemma_prod_integers_concat(s, seq![x]);
    reveal_with_fuel(non_integers, 2);
    reveal_with_fuel(sum_integers, 2);
    reveal_with_fuel(prod_integers, 2);
    assert(seq![x].drop_first() =~= Seq::<ExprModel<ID>>::empty());
    assert(non_integers(s.push(x)) =~= non_integers(s) + (if x is Integer {
        Seq::<ExprModel<ID>>::empty()
    } else {
        seq![x]
    }));
}

/// The split pairs of canonical sum members carry canonical simple bases.
pub proof fn lemma_term_pairs_good<ID>(ms: Seq<ExprModel<ID>>)
    requires
        forall|k: int| 0 <= k < ms.len() ==> is_canonical(#[trigger] ms[k]),
    ensures
        forall|k: int| 0 <= k < split_pairs(ms, true).len() ==> is_canonical(
            (#[trigger] split_pairs(ms, true)[k]).1,
        ) && is_simple(split_pairs(ms, true)[k].1),
    decreases ms.len(),
{
    if ms.len() > 0 {
        assert forall|k: int| 0 <= k < ms.drop_first().len() implies is_canonical(
            #[trigger] ms.drop_first()[k],
        ) by {
            assert(ms.drop_first()[k] == ms[k + 1]);
        }
        lemma_term_pairs_good(ms.drop_first());
        let sp = split_pairs(ms, true);
        let rest = split_pairs(ms.drop_first(), true);
        assert forall|k: int| 0 <= k < sp.len() implies is_canonical((#[trigger] sp[k]).1)
            && is_simple(sp[k].1) by {
            if term_splits(ms[0]) && k == 0 {
                assert(sp[0] == (term_coeff(ms[0]), term_base(ms[0])));
                if ms[0] is Product {
                    reveal_with_fuel(is_canonical, 2);
                    lemma_canonical_seq_index(ms[0]->Product_0);
                    assert(ms[0]->Product_0[1] == term_base(ms[0]));
                }
            } else {
                let k2 = if term_splits(ms[0]) {
                    k - 1
                } else {
                    k
                };
                assert(sp[k] == rest[k2]);
            }
        }
    }
}

/// The split pairs of canonical, product-free product members carry canonical
/// bases that are neither products nor integer-exponent powers.
pub proof fn lemma_factor_pairs_good<ID>(ms: Seq<ExprModel<ID>>)
    requires
        forall|k: int| 0 <= k < ms.len() ==> is_canonical(#[trigger] ms[k]) && !(ms[k]
            is Product),
    ensures
        forall|k: int| 0 <= k < split_pairs(ms, false).len() ==> is_canonical(
            (#[trigger] split_pairs(ms, false)[k]).1,
        ) && !(split_pairs(ms, false)[k].1 is Product) && !is_int_power(
            split_pairs(ms, false)[k].1,
        ),
    decreases ms.len(),
{
    if ms.len() > 0 {
        assert forall|k: int| 0 <= k < ms.drop_first().len() implies is_canonical(
            #[trigger] ms.drop_first()[k],
        ) && !(ms.drop_first()[k] is Product) by {
            assert(ms.drop_first()[k] == ms[k + 1]);
        }
        lemma_factor_pairs_good(ms.drop_first());
        let sp = split_pairs(ms, false);
        let rest = split_pairs(ms.drop_first(), false);
        assert forall|k: int| 0 <= k < sp.len() implies is_canonical((#[trigger] sp[k]).1) && !(
        sp[k].1 is Product) && !is_int_power(sp[k].1) by {
            if factor_splits(ms[0]) && k == 0 {
                assert(sp[0] == (factor_exp(ms[0]), factor_base(ms[0])));
                if is_int_power(ms[0]) {
                    reveal_with_fuel(is_canonical, 2);
                }
            } else {
                let k2 = if factor_splits(ms[0]) {
                    k - 1
                } else {
                    k
                };
                assert(sp[k] == rest[k2]);
            }
        }
    }
}

/// A base no split member carries is absent from the split pairs.
pub proof fn lemma_term_pairs_absent<ID>(ms: Seq<ExprModel<ID>>, b: ExprModel<ID>)
    requires
        forall|j: int| 0 <= j < ms.len() && term_splits(#[trigger] ms[j]) ==> term_base(ms[j])
            != b,
    ensures
        forall|k: int| 0 <= k < split_pairs(ms, true).len() ==> (#[trigger] split_pairs(
            ms,
            true,
        )[k]).1 != b,
    decreases ms.len(),
{
    if ms.len() > 0 {
        assert forall|j: int|
            0 <= j < ms.drop_first().len() && term_splits(#[trigger] ms.drop_first()[j])
            implies term_base(ms.drop_first()[j]) != b by {
            assert(ms.drop_first()[j] == ms[j + 1]);
        }
        lemma_term_pairs_absent(ms.drop_first(), b);
        let sp = split_pairs(ms, true);
        let rest = split_pairs(ms.drop_first(), true);
        assert forall|k: int| 0 <= k < sp.len() implies (#[trigger] sp[k]).1 != b by {
            if term_splits(ms[0]) && k == 0 {
                assert(sp[0] == (term_coeff(ms[0]), term_base(ms[0])));
            } else {
                let k2 = if term_splits(ms[0]) {
                    k - 1
                } else {
                    k
                };
                assert(sp[k] == rest[k2]);
            }
        }
    }
}

/// A base no split factor carries is absent from the split pairs.
pub proof fn lemma_factor_pairs_absent<ID>(ms: Seq<ExprModel<ID>>, b: ExprModel<ID>)
    requires
        forall|j: int| 0 <= j < ms.len() && factor_splits(#[trigger] ms[j]) ==> factor_base(
            ms[j],
        ) != b,
    ensures
        forall|k: int| 0 <= k < split_pairs(ms, false).len() ==> (#[trigger] split_pairs(
            ms,
            false,
        )[k]).1 != b,
    decreases ms.len(),
{
    if ms.len() > 0 {
        assert forall|j: int|
            0 <= j < ms.drop_first().len() && factor_splits(#[trigger] ms.drop_first()[j])
            implies factor_base(ms.drop_first()[j]) != b by {
            assert(ms.drop_first()[j] == ms[j + 1]);
        }
        lemma_factor_pairs_absent(ms.drop_first(), b);
        let sp = split_pairs(ms, false);
        let rest = split_pairs(ms.drop_first(), false);
        assert forall|k: int| 0 <= k < sp.len() implies (#[trigger] sp[k]).1 != b by {
            if factor_splits(ms[0]) && k == 0 {
                assert(sp[0] == (factor_exp(ms[0]), factor_base(ms[0])));
            } else {
                let k2 = if factor_splits(ms[0]) {
                    k - 1
                } else {
                    k
                };
                assert(sp[k] == rest[k2]);
            }
        }
    }
}

/// Every opaque member of a member list is a member that does not split.
pub proof fn lemma_opaque_elements<ID>(ms: Seq<ExprModel<ID>>, of_sum: bool)
    ensures
        forall|k: int| 0 <= k < opaque_members(ms, of_sum).len() ==> exists|j: int|
            0 <= j < ms.len() && #[trigger] opaque_members(ms, of_sum)[k] == ms[j],
        of_sum ==> forall|k: int| 0 <= k < opaque_members(ms, of_sum).len() ==> !term_splits(
            #[trigger] opaque_members(ms, of_sum)[k],
        ),
        !of_sum ==> forall|k: int| 0 <= k < opaque_members(ms, of_sum).len() ==> !factor_splits(
            #[trigger] opaque_members(ms, of_sum)[k],
        ),
    decreases ms.len(),
{
    if ms.len() > 0 {
        lemma_opaque_elements(ms.drop_first(), of_sum);
        let op = opaque_members(ms, of_sum);
        let rest = opaque_members(ms.drop_first(), of_sum);
        let head_splits = if of_sum {
            term_splits(ms[0])
        } else {
            factor_splits(ms[0])
        };
        assert forall|k: int| 0 <= k < op.len() implies exists|j: int| 0 <= j < ms.len()
            && #[trigger] op[k] == ms[j] by {
            if !head_splits && k == 0 {
                assert(op[0] == ms[0]);
            } else {
                let k2 = if head_splits {
                    k
                } else {
                    k - 1
                };
                assert(op[k] == rest[k2]);
                let j0 = choose|j: int|
                    0 <= j < ms.drop_first().len() && #[trigger] rest[k2] == ms.drop_first()[j];
                assert(ms.drop_first()[j0] == ms[j0 + 1]);
            }
        }
        assert forall|k: int| 0 <= k < op.len() implies (if of_sum {
            !term_splits(#[trigger] op[k])
        } else {
            !factor_splits(op[k])
        }) by {
            if !head_splits && k == 0 {
            } else {
                let k2 = if head_splits {
                    k
                } else {
                    k - 1
                };
                assert(op[k] == rest[k2]);
            }
        }
    }
}

/// A collected sum term: canonical, collectable, with the collected base, and
/// neither a sum nor an integer.
pub proof fn lemma_term_expr_member<ID>(c: int, b: ExprModel<ID>)
    requires
        c != 0,
        is_canonical(b),
        is_simple(b),
    ensures
        is_canonical(term_expr(c, b)),
        term_splits(term_expr(c, b)),
        term_base(term_expr(c, b)) == b,
        term_coeff(term_expr(c, b)) == c,
        !(term_expr(c, b) is Sum),
        !(term_expr(c, b) is Integer),
{
    if c != 1 {
        let m = term_expr(c, b);
        assert(m->Product_0 =~= seq![ExprModel::Integer(c), b]);
        reveal_with_fuel(is_canonical, 2);
        reveal_with_fuel(canonical_seq, 3);
        assert(canonical_seq(m->Product_0)) by {
            assert(m->Product_0.drop_first() =~= seq![b]);
            assert(m->Product_0.drop_first().drop_first() =~= Seq::<ExprModel<ID>>::empty());
        }
        assert(is_canonical(m));
    }
}

/// Dropping a base keeps only pairs of the sequence whose base differs.
pub proof fn lemma_drop_base_elements<ID>(pairs: Seq<(int, ExprModel<ID>)>, b: ExprModel<ID>)
    ensures
        forall|k: int| 0 <= k < drop_base(pairs, b).len() ==> #[trigger] drop_base(pairs, b)[k].1
            != b && exists|j: int| 0 <= j < pairs.len() && drop_base(pairs, b)[k] == pairs[j],
    decreases pairs.len(),
{
    if pairs.len() > 0 {
        lemma_drop_base_elements(pairs.drop_first(), b);
        let dp = drop_base(pairs, b);
        let rest = drop_base(pairs.drop_first(), b);
        assert forall|k: int| 0 <= k < dp.len() implies #[trigger] dp[k].1 != b && exists|j: int|
            0 <= j < pairs.len() && dp[k] == pairs[j] by {
            if pairs[0].1 != b && k == 0 {
                assert(dp[0] == pairs[0]);
            } else {
                let k2 = if pairs[0].1 != b {
                    k - 1
                } else {
                    k
                };
                assert(dp[k] == rest[k2]);
                let j0 = choose|j: int|
                    0 <= j < pairs.drop_first().len() && #[trigger] rest[k2]
                        == pairs.drop_first()[j];
                assert(pairs.drop_first()[j0] == pairs[j0 + 1]);
            }
        }
    }
}

/// Collected pairs carry pairwise distinct bases, each taken from the input.
pub proof fn lemma_collect_props<ID>(pairs: Seq<(int, ExprModel<ID>)>)
    ensures
        forall|k: int| 0 <= k < collect_pairs(pairs).len() ==> exists|j: int|
            0 <= j < pairs.len() && #[trigger] collect_pairs(pairs)[k].1 == pairs[j].1,
        forall|k1: int, k2: int|
            0 <= k1 < k2 < collect_pairs(pairs).len() ==> #[trigger] collect_pairs(pairs)[k1].1
                != #[trigger] collect_pairs(pairs)[k2].1,
    decreases pairs.len(),
{
    if pairs.len() > 0 {
        let b0 = pairs[0].1;
        let remaining = drop_base(pairs.drop_first(), b0);
        lemma_drop_base_len(pairs.drop_first(), b0);
        lemma_collect_props(remaining);
        lemma_drop_base_elements(pairs.drop_first(), b0);
        let cp = collect_pairs(pairs);
        let rest = collect_pairs(remaining);
        assert forall|k: int| 0 <= k < cp.len() implies exists|j: int| 0 <= j < pairs.len()
            && #[trigger] cp[k].1 == pairs[j].1 by {
            if k == 0 {
                assert(cp[0].1 == pairs[0].1);
            } else {
                assert(cp[k] == rest[k - 1]);
                let j0 = choose|j: int|
                    0 <= j < remaining.len() && #[trigger] rest[k - 1].1 == remaining[j].1;
                let j1 = choose|j: int|
                    0 <= j < pairs.drop_first().len() && remaining[j0] == pairs.drop_first()[j];
                assert(pairs.drop_first()[j1] == pairs[j1 + 1]);
            }
        }
        assert forall|k1: int, k2: int| 0 <= k1 < k2 < cp.len() implies #[trigger] cp[k1].1
            != #[trigger] cp[k2].1 by {
            if k1 == 0 {
                assert(cp[k2] == rest[k2 - 1]);
                let j0 = choose|j: int|
                    0 <= j < remaining.len() && #[trigger] rest[k2 - 1].1 == remaining[j].1;
                assert(remaining[j0].1 != b0);
            } else {
                assert(cp[k1] == rest[k1 - 1] && cp[k2] == rest[k2 - 1]);
            }
        }
    }
}

/// A base absent from a sequence of pairs carries no weight there, and
/// dropping it changes nothing.
pub proof fn lemma_absent_base<ID>(pairs: Seq<(int, ExprModel<ID>)>, b: ExprModel<ID>)
    requires
        forall|k: int| 0 <= k < pairs.len() ==> (#[trigger] pairs[k]).1 != b,
    ensures
        weight_of(pairs, b) == 0,
        drop_base(pairs, b) == pairs,
    decreases pairs.len(),
{
    if pairs.len() > 0 {
        assert forall|k: int| 0 <= k < pairs.drop_first().len() implies (
        #[trigger] pairs.drop_first()[k]).1 != b by {
            assert(pairs.drop_first()[k] == pairs[k + 1]);
        }
        lemma_absent_base(pairs.drop_first(), b);
        assert(drop_base(pairs, b) =~= pairs);
    }
}

/// A power with a literal integer exponent over a base that is not itself
/// such a power simplifies to a canonical tree.
pub proof fn lemma_int_power_canonical<ID>(b: ExprModel<ID>, e: int)
    requires
        is_canonical(b),
        !is_int_power(b),
    ensures
        is_canonical(int_power(b, e)),
{
    reveal_with_fuel(is_canonical, 3);
}

/// No member of an all-opaque list splits, so its split pairs are empty.
pub proof fn lemma_split_pairs_empty<ID>(ms: Seq<ExprModel<ID>>, of_sum: bool)
    requires
        forall|k: int| 0 <= k < ms.len() ==> !(if of_sum {
            term_splits(#[trigger] ms[k])
        } else {
            factor_splits(#[trigger] ms[k])
        }),
    ensures
        split_pairs(ms, of_sum) == Seq::<(int, ExprModel<ID>)>::empty(),
        opaque_members(ms, of_sum) == ms,
    decreases ms.len(),
{
    if ms.len() > 0 {
        assert forall|k: int| 0 <= k < ms.drop_first().len() implies !(if of_sum {
            term_splits(#[trigger] ms.drop_first()[k])
        } else {
            factor_splits(#[trigger] ms.drop_first()[k])
        }) by {
            assert(ms.drop_first()[k] == ms[k + 1]);
        }
        lemma_split_pairs_empty(ms.drop_first(), of_sum);
        assert(split_pairs(ms, of_sum) =~= Seq::<(int, ExprModel<ID>)>::empty());
        assert(opaque_members(ms, of_sum) =~= ms);
    } else {
        assert(split_pairs(ms, of_sum) =~= Seq::<(int, ExprModel<ID>)>::empty());
        assert(opaque_members(ms, of_sum) =~= ms);
    }
}

/// Rebuilding the collected split of a canonical sum's non-integer members
/// returns them unchanged.
pub proof fn lemma_sum_rebuild_id<ID>(ms: Seq<ExprModel<ID>>)
    requires
        canonical_seq(ms),
        forall|k: int| 0 <= k < ms.len() ==> !((#[trigger] ms[k]) is Integer) && !(ms[k] is Sum),
        forall|k1: int, k2: int|
            0 <= k1 < k2 < ms.len() && term_splits(#[trigger] ms[k1]) && term_splits(
                #[trigger] ms[k2],
            ) ==> term_base(ms[k1]) != term_base(ms[k2]),
        forall|k1: int, k2: int|
            0 <= k1 < k2 < ms.len() && !term_splits(#[trigger] ms[k1]) ==> !term_splits(
                #[trigger] ms[k2],
            ),
    ensures
        sum_terms(collect_pairs(split_pairs(ms, true))) + opaque_members(ms, true) == ms,
    decreases ms.len(),
{
    lemma_canonical_seq_index(ms);
    if ms.len() == 0 {
        assert(sum_terms(collect_pairs(split_pairs(ms, true))) + opaque_members(ms, true) =~= ms);
    } else {
        let m0 = ms[0];
        let rest = ms.drop_first();
        lemma_canonical_seq_index(rest);
        assert forall|k: int| 0 <= k < rest.len() implies is_canonical(#[trigger] rest[k]) && !(
        rest[k] is Integer) && !(rest[k] is Sum) by {
            assert(rest[k] == ms[k + 1]);
        }
        assert forall|k1: int, k2: int|
            0 <= k1 < k2 < rest.len() && term_splits(#[trigger] rest[k1]) && term_splits(
                #[trigger] rest[k2],
            ) implies term_base(rest[k1]) != term_base(rest[k2]) by {
            assert(rest[k1] == ms[k1 + 1] && rest[k2] == ms[k2 + 1]);
        }
        assert forall|k1: int, k2: int|
            0 <= k1 < k2 < rest.len() && !term_splits(#[trigger] rest[k1]) implies !term_splits(
                #[trigger] rest[k2],
            ) by {
            assert(rest[k1] == ms[k1 + 1] && rest[k2] == ms[k2 + 1]);
        }
        lemma_sum_rebuild_id(rest);
        if term_splits(m0) {
            let b0 = term_base(m0);
            let c0 = term_coeff(m0);
            let sp_rest = split_pairs(rest, true);
            assert forall|j: int|
                0 <= j < rest.len() && term_splits(#[trigger] rest[j]) implies term_base(rest[j])
                != b0 by {
                assert(rest[j] == ms[j + 1]);
            }
            lemma_term_pairs_absent(rest, b0);
            lemma_absent_base(sp_rest, b0);
            // The head rebuilds to itself.
            assert(c0 != 0 && term_expr(c0, b0) == m0) by {
                if m0 is Product {
                    reveal_with_fuel(is_canonical, 2);
                    assert(m0->Product_0 =~= seq![m0->Product_0[0], m0->Product_0[1]]);
                }
            }
            let sp = split_pairs(ms, true);
            assert(sp =~= seq![(c0, b0)] + sp_rest);
            assert(sp.drop_first() =~= sp_rest);
            assert(sp[0] == (c0, b0));
            assert(collect_pairs(sp) =~= seq![(c0, b0)] + collect_pairs(sp_rest)) by {
                assert(c0 + weight_of(sp_rest, b0) == c0);
                assert(drop_base(sp_rest, b0) == sp_rest);
            }
            let cc = collect_pairs(sp);
            assert(cc[0] == (c0, b0) && cc.drop_first() =~= collect_pairs(sp_rest));
            assert(sum_terms(cc) =~= seq![m0] + sum_terms(collect_pairs(sp_rest)));
            assert(opaque_members(ms, true) =~= opaque_members(rest, true));
            assert(ms =~= seq![m0] + rest);
            assert((seq![m0] + sum_terms(collect_pairs(sp_rest))) + opaque_members(rest, true)
                =~= seq![m0] + (sum_terms(collect_pairs(sp_rest)) + opaque_members(rest, true)));
            assert(sum_terms(collect_pairs(split_pairs(ms, true))) + opaque_members(ms, true)
                =~= ms);
        } else {
            assert forall|k: int| 0 <= k < rest.len() implies !term_splits(
                #[trigger] rest[k],
            ) by {
                assert(rest[k] == ms[k + 1]);
            }
            lemma_split_pairs_empty(rest, true);
            lemma_split_pairs_empty(ms, true);
            assert(sum_terms(collect_pairs(split_pairs(ms, true))) + opaque_members(ms, true)
                =~= ms);
        }
    }
}

/// Rebuilding the collected split of a canonical product's non-integer
/// members returns them unchanged, and contributes no integer constant.
pub proof fn lemma_product_rebuild_id<ID>(ms: Seq<ExprModel<ID>>)
    requires
        canonical_seq(ms),
        forall|k: int| 0 <= k < ms.len() ==> !((#[trigger] ms[k]) is Integer) && !(ms[k]
            is Product),
        forall|k1: int, k2: int|
            0 <= k1 < k2 < ms.len() && factor_splits(#[trigger] ms[k1]) && factor_splits(
                #[trigger] ms[k2],
            ) ==> factor_base(ms[k1]) != factor_base(ms[k2]),
        forall|k1: int, k2: int|
            0 <= k1 < k2 < ms.len() && !factor_splits(#[trigger] ms[k1]) ==> !factor_splits(
                #[trigger] ms[k2],
            ),
    ensures
        power_factors(collect_pairs(split_pairs(ms, false))) + opaque_members(ms, false) == ms,
        power_constant(collect_pairs(split_pairs(ms, false))) == 1,
    decreases ms.len(),
{
    lemma_canonical_seq_index(ms);
    if ms.len() == 0 {
        assert(power_factors(collect_pairs(split_pairs(ms, false))) + opaque_members(ms, false)
            =~= ms);
    } else {
        let m0 = ms[0];
        let rest = ms.drop_first();
        lemma_canonical_seq_index(rest);
        assert forall|k: int| 0 <= k < rest.len() implies is_canonical(#[trigger] rest[k]) && !(
        rest[k] is Integer) && !(rest[k] is Product) by {
            assert(rest[k] == ms[k + 1]);
        }
        assert forall|k1: int, k2: int|
            0 <= k1 < k2 < rest.len() && factor_splits(#[trigger] rest[k1]) && factor_splits(
                #[trigger] rest[k2],
            ) implies factor_base(rest[k1]) != factor_base(rest[k2]) by {
            assert(rest[k1] == ms[k1 + 1] && rest[k2] == ms[k2 + 1]);
        }
        assert forall|k1: int, k2: int|
            0 <= k1 < k2 < rest.len() && !factor_splits(#[trigger] rest[k1])
            implies !factor_splits(#[trigger] rest[k2]) by {
            assert(rest[k1] == ms[k1 + 1] && rest[k2] == ms[k2 + 1]);
        }
        lemma_product_rebuild_id(rest);
        if factor_splits(m0) {
            let b0 = factor_base(m0);
            let e0 = factor_exp(m0);
            let sp_rest = split_pairs(rest, false);
            assert forall|j: int|
                0 <= j < rest.len() && factor_splits(#[trigger] rest[j]) implies factor_base(
                rest[j]) != b0 by {
                assert(rest[j] == ms[j + 1]);
            }
            lemma_factor_pairs_absent(rest, b0);
            lemma_absent_base(sp_rest, b0);
            assert(int_power(b0, e0) == m0) by {
                if is_int_power(m0) {
                    reveal_with_fuel(is_canonical, 2);
                    assert(*m0->Power_1 == ExprModel::<ID>::Integer(e0));
                }
            }
            let sp = split_pairs(ms, false);
            assert(sp =~= seq![(e0, b0)] + sp_rest);
            assert(sp.drop_first() =~= sp_rest);
            assert(sp[0] == (e0, b0));
            assert(collect_pairs(sp) =~= seq![(e0, b0)] + collect_pairs(sp_rest)) by {
                assert(e0 + weight_of(sp_rest, b0) == e0);
                assert(drop_base(sp_rest, b0) == sp_rest);
            }
            let cc = collect_pairs(sp);
            assert(cc[0] == (e0, b0) && cc.drop_first() =~= collect_pairs(sp_rest));
            assert(power_factors(cc) =~= seq![m0] + power_factors(collect_pairs(sp_rest)));
            assert(power_constant(cc) == power_constant(collect_pairs(sp_rest)));
            assert(opaque_members(ms, false) =~= opaque_members(rest, false));
            assert(ms =~= seq![m0] + rest);
            assert((seq![m0] + power_factors(collect_pairs(sp_rest))) + opaque_members(
                rest,
                false,
            ) =~= seq![m0] + (power_factors(collect_pairs(sp_rest)) + opaque_members(
                rest,
                false,
            )));
            assert(power_factors(collect_pairs(split_pairs(ms, false))) + opaque_members(
                ms,
                false,
            ) =~= ms);
        } else {
            assert forall|k: int| 0 <= k < rest.len() implies !factor_splits(
                #[trigger] rest[k],
            ) by {
                assert(rest[k] == ms[k + 1]);
            }
            lemma_split_pairs_empty(rest, false);
            lemma_split_pairs_empty(ms, false);
            assert(power_factors(collect_pairs(split_pairs(ms, false))) + opaque_members(
                ms,
                false,
            ) =~= ms);
        }
    }
}

/// A leading-integer sequence folds to that integer and loses it to
/// `non_integers`.
pub proof fn lemma_leading_integer<ID>(s: Seq<ExprModel<ID>>)
    requires
        s.len() >= 1,
        s[0] is Integer,
        forall|i: int| 1 <= i < s.len() ==> !((#[trigger] s[i]) is Integer),
    ensures
        non_integers(s) == s.drop_first(),
        prod_integers(s) == s[0]->Integer_0,
        sum_integers(s) == s[0]->Integer_0,
{
    assert forall|i: int| 0 <= i < s.drop_first().len() implies !((#[trigger] s.drop_first()[i])
        is Integer) by {
        assert(s.drop_first()[i] == s[i + 1]);
    }
    lemma_all_non_integers(s.drop_first());
    assert(non_integers(s) =~= s.drop_first());
}

} // verus!
