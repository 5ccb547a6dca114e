use vstd::prelude::*;
use vstd::std_specs::iter::IteratorSpec;
use crate::bignum::{Bignum, big_add, big_mul, is_digit_char, digit_val, dec_val_of};
use crate::expression::{
    ExprModel, Expression, expr_wf, exprs_wf, exprs_view, lemma_exprs_view_push,
    lemma_exprs_wf_push,
};

verus! {

/// Whether a character beyond the ASCII range counts as a letter. The
/// decision is the standard library's Unicode Alphabetic table, named here.
pub uninterp spec fn foreign_letter(c: char) -> bool;

/// Whether a character may appear in a variable name: an ASCII letter, or a
/// character the Unicode tables class as alphabetic.
pub open spec fn is_letter(c: char) -> bool {
    if (c as u32) < 128 {
        65 <= c as u32 <= 90 || 97 <= c as u32 <= 122
    } else {
        foreign_letter(c)
    }
}

/// Relies on `char::is_alphabetic`: the result depends on the character
/// alone; on the ASCII range the Alphabetic class holds exactly of the
/// letters.
#[verifier::external_body]
pub fn letter(c: char) -> (r: bool)
    ensures
        r == is_letter(c),
        (c as u32) >= 128 ==> r == foreign_letter(c),
{
    c.is_alphabetic()
}

/// Whitespace accepted around operators and parentheses.
pub open spec fn is_space(c: char) -> bool {
    c == ' ' || c == '\t' || c == '\n' || c == '\r'
}

/// The first position at or after `i` that does not hold whitespace.
pub open spec fn skip_ws(s: Seq<char>, i: int) -> int
    decreases s.len() - i,
{
    if 0 <= i < s.len() && is_space(s[i]) {
        skip_ws(s, i + 1)
    } else {
        i
    }
}

/// Bounds and meaning of `skip_ws`.
pub proof fn lemma_skip_ws(s: Seq<char>, i: int)
    requires
        0 <= i <= s.len(),
    ensures
        i <= skip_ws(s, i) <= s.len(),
        skip_ws(s, i) < s.len() ==> !is_space(s[skip_ws(s, i)]),
    decreases s.len() - i,
{
    if i < s.len() && is_space(s[i]) {
        lemma_skip_ws(s, i + 1);
    }
}

/// The end of the maximal run of decimal digits starting at `i`.
pub open spec fn scan_digits(s: Seq<char>, i: int) -> int
    decreases s.len() - i,
{
    if 0 <= i < s.len() && is_digit_char(s[i]) {
        scan_digits(s, i + 1)
    } else {
        i
    }
}

/// Bounds and meaning of `scan_digits`.
pub proof fn lemma_scan_digits(s: Seq<char>, i: int)
    requires
        0 <= i <= s.len(),
    ensures
        i <= scan_digits(s, i) <= s.len(),
        forall|k: int| i <= k < scan_digits(s, i) ==> is_digit_char(#[trigger] s[k]),
        scan_digits(s, i) < s.len() ==> !is_digit_char(s[scan_digits(s, i)]),
    decreases s.len() - i,
{
    if i < s.len() && is_digit_char(s[i]) {
        lemma_scan_digits(s, i + 1);
    }
}

/// The end of the maximal run of letters starting at `i`.
pub open spec fn scan_letters(s: Seq<char>, i: int) -> int
    decreases s.len() - i,
{
    if 0 <= i < s.len() && is_letter(s[i]) {
        scan_letters(s, i + 1)
    } else {
        i
    }
}

/// Bounds and meaning of `scan_letters`.
pub proof fn lemma_scan_letters(s: Seq<char>, i: int)
    requires
        0 <= i <= s.len(),
    ensures
        i <= scan_letters(s, i) <= s.len(),
        forall|k: int| i <= k < scan_letters(s, i) ==> is_letter(#[trigger] s[k]),
        scan_letters(s, i) < s.len() ==> !is_letter(s[scan_letters(s, i)]),
    decreases s.len() - i,
{
    if i < s.len() && is_letter(s[i]) {
        lemma_scan_letters(s, i + 1);
    }
}

/// Whether `p` occurs in `s` starting at position `i`.
pub open spec fn has_token(s: Seq<char>, i: int, p: Seq<char>) -> bool {
    0 <= i && i + p.len() <= s.len() && s.subrange(i, i + p.len()) == p
}

/// The model of a parsed source text: a tree over name views.
pub type ParsedExpr = ExprModel<Seq<char>>;

/// A parse outcome at one position: the tree recognized and the position
/// just after it.
pub type ParseStep = Option<(ParsedExpr, int)>;

/// The additive grammar level: one or more multiplicative terms joined by
/// `+` or `-`, a leading `-` permitted; `-` is represented as multiplication
/// by `-1`, and a single term stands for itself, unwrapped.
pub open spec fn p_additive(s: Seq<char>, i: int) -> ParseStep
    decreases s.len() - i, 5int,
{
    if !(0 <= i <= s.len()) {
        None
    } else {
        match p_mult(s, i) {
            Some((first, m)) => {
                if m > i && m <= s.len() {
                    p_additive_rest(s, m, seq![first])
                } else {
                    None
                }
            },
            None => {
                if i < s.len() && s[i] == '-' {
                    let k = skip_ws(s, i + 1);
                    if k > i && k <= s.len() {
                        match p_mult(s, k) {
                            Some((first, m)) => {
                                if m > i && m <= s.len() {
                                    p_additive_rest(
                                        s,
                                        m,
                                        seq![
                                            ExprModel::Product(
                                                seq![ExprModel::Integer(-1), first],
                                            ),
                                        ],
                                    )
                                } else {
                                    None
                                }
                            },
                            None => None,
                        }
                    } else {
                        None
                    }
                } else {
                    None
                }
            },
        }
    }
}

/// The terms of an additive chain after the first: each `+` or `-` joined
/// multiplicative term is appended, a `-` joined term negated; the chain
/// stops before the first joiner it cannot complete.
pub open spec fn p_additive_rest(s: Seq<char>, i: int, terms: Seq<ParsedExpr>) -> ParseStep
    decreases s.len() - i, 9int,
{
    if !(0 <= i <= s.len() && terms.len() >= 1) {
        None
    } else {
        let j = skip_ws(s, i);
        if j < s.len() && j >= i && (s[j] == '+' || s[j] == '-') {
            let k = skip_ws(s, j + 1);
            if k > j && k <= s.len() {
                match p_mult(s, k) {
                    Some((term, m)) => {
                        if m > j && m <= s.len() {
                            let next = if s[j] == '+' {
                                term
                            } else {
                                ExprModel::Product(seq![ExprModel::Integer(-1), term])
                            };
                            p_additive_rest(s, m, terms.push(next))
                        } else {
                            Some(((if terms.len() == 1 {
                                terms[0]
                            } else {
                                ExprModel::Sum(terms)
                            }), i))
                        }
                    },
                    None => Some(((if terms.len() == 1 {
                        terms[0]
                    } else {
                        ExprModel::Sum(terms)
                    }), i)),
                }
            } else {
                Some(((if terms.len() == 1 {
                    terms[0]
                } else {
                    ExprModel::Sum(terms)
                }), i))
            }
        } else {
            Some(((if terms.len() == 1 {
                terms[0]
            } else {
                ExprModel::Sum(terms)
            }), i))
        }
    }
}

/// The multiplicative grammar level: either a quotient of two power-level
/// operands, a chain of two or more `*`-joined operands, or a single
/// power-level term. Mixed `*` and `/` chains are not part of the grammar.
pub open spec fn p_mult(s: Seq<char>, i: int) -> ParseStep
    decreases s.len() - i, 4int,
{
    if !(0 <= i <= s.len()) {
        None
    } else {
        match p_power(s, i) {
            Some((first, m)) => {
                if m > i {
                    let j = skip_ws(s, m);
                    if j < s.len() && j >= m && s[j] == '/' {
                        let k = skip_ws(s, j + 1);
                        if k > j && k <= s.len() {
                            match p_power(s, k) {
                                Some((second, m2)) => {
                                    if m2 > j {
                                        Some((ExprModel::Quotient(
                                            Box::new(first),
                                            Box::new(second),
                                        ), m2))
                                    } else {
                                        Some((first, m))
                                    }
                                },
                                None => Some((first, m)),
                            }
                        } else {
                            Some((first, m))
                        }
                    } else if j < s.len() && j >= m && s[j] == '*' {
                        p_mult_rest(s, m, seq![first])
                    } else {
                        Some((first, m))
                    }
                } else {
                    None
                }
            },
            None => None,
        }
    }
}

/// The factors of a multiplication chain after the first: each `*` joined
/// power-level factor is appended; the chain stops before the first joiner it
/// cannot complete.
pub open spec fn p_mult_rest(s: Seq<char>, i: int, factors: Seq<ParsedExpr>) -> ParseStep
    decreases s.len() - i, 9int,
{
    if !(0 <= i <= s.len() && factors.len() >= 1) {
        None
    } else {
        let j = skip_ws(s, i);
        if j < s.len() && j >= i && s[j] == '*' {
            let k = skip_ws(s, j + 1);
            if k > j && k <= s.len() {
                match p_power(s, k) {
                    Some((factor, m)) => {
                        if m > j && m <= s.len() {
                            p_mult_rest(s, m, factors.push(factor))
                        } else {
                            Some(((if factors.len() == 1 {
                                factors[0]
                            } else {
                                ExprModel::Product(factors)
                            }), i))
                        }
                    },
                    None => Some(((if factors.len() == 1 {
                        factors[0]
                    } else {
                        ExprModel::Product(factors)
                    }), i)),
                }
            } else {
                Some(((if factors.len() == 1 {
                    factors[0]
                } else {
                    ExprModel::Product(factors)
                }), i))
            }
        } else {
            Some(((if factors.len() == 1 {
                factors[0]
            } else {
                ExprModel::Product(factors)
            }), i))
        }
    }
}

/// The power grammar level: a primary, optionally raised by `^` to a second
/// primary; `a^b^c` is not part of the grammar.
pub open spec fn p_power(s: Seq<char>, i: int) -> ParseStep
    decreases s.len() - i, 3int,
{
    if !(0 <= i <= s.len()) {
        None
    } else {
        match p_primary(s, i) {
            Some((base, m)) => {
                if m > i {
                    let j = skip_ws(s, m);
                    if j < s.len() && j >= m && s[j] == '^' {
                        let k = skip_ws(s, j + 1);
                        if k > j && k <= s.len() {
                            match p_primary(s, k) {
                                Some((exponent, m2)) => {
                                    if m2 > j {
                                        Some((ExprModel::Power(
                                            Box::new(base),
                                            Box::new(exponent),
                                        ), m2))
                                    } else {
                                        Some((base, m))
                                    }
                                },
                                None => Some((base, m)),
                            }
                        } else {
                            Some((base, m))
                        }
                    } else {
                        Some((base, m))
                    }
                } else {
                    None
                }
            },
            None => None,
        }
    }
}

/// A parenthesized additive expression: an opening token of `open_len`
/// characters at `i`, the operand, optional whitespace, and a closing mark.
pub open spec fn p_bracketed(s: Seq<char>, i: int, open_len: int) -> ParseStep
    decreases s.len() - i, 0int,
{
    if !(0 <= i && i + open_len <= s.len() && open_len >= 1) {
        None
    } else {
        let k = skip_ws(s, i + open_len);
        if k > i && k <= s.len() {
            match p_additive(s, k) {
                Some((inner, m)) => {
                    if m > i && m <= s.len() {
                        let m2 = skip_ws(s, m);
                        if m2 < s.len() && s[m2] == ')' {
                            Some((inner, m2 + 1))
                        } else {
                            None
                        }
                    } else {
                        None
                    }
                },
                None => None,
            }
        } else {
            None
        }
    }
}

/// The primary grammar level: `exp(...)`, `log(...)` or `ln(...)` function
/// forms, a signed integer literal, a variable name of letters, or a
/// parenthesized expression.
pub open spec fn p_primary(s: Seq<char>, i: int) -> ParseStep
    decreases s.len() - i, 1int,
{
    if !(0 <= i <= s.len()) {
        None
    } else if has_token(s, i, "exp("@) {
        match p_bracketed(s, i, 4) {
            Some((inner, m)) => Some((ExprModel::Exponential(Box::new(inner)), m)),
            None => None,
        }
    } else if has_token(s, i, "log("@) {
        match p_bracketed(s, i, 4) {
            Some((inner, m)) => Some((ExprModel::Logarithm(Box::new(inner)), m)),
            None => None,
        }
    } else if has_token(s, i, "ln("@) {
        match p_bracketed(s, i, 3) {
            Some((inner, m)) => Some((ExprModel::Logarithm(Box::new(inner)), m)),
            None => None,
        }
    } else if i < s.len() && (is_digit_char(s[i]) || (s[i] == '-' && i + 1 < s.len()
        && is_digit_char(s[i + 1]))) {
        let negative = s[i] == '-';
        let start = if negative {
            i + 1
        } else {
            i
        };
        let end = scan_digits(s, start);
        if end > start {
            let magnitude = dec_val_of(s.subrange(start, end));
            Some((ExprModel::Integer(
                if negative {
                    -magnitude
                } else {
                    magnitude
                },
            ), end))
        } else {
            None
        }
    } else if i < s.len() && is_letter(s[i]) {
        let end = scan_letters(s, i);
        if end > i {
            Some((ExprModel::Variable(s.subrange(i, end)), end))
        } else {
            None
        }
    } else if i < s.len() && s[i] == '(' {
        p_bracketed(s, i, 1)
    } else {
        None
    }
}

/// The whole-text parse: leading and trailing whitespace allowed, and the
/// text must be consumed in full by one additive production.
pub open spec fn spec_parse(s: Seq<char>) -> Option<ParsedExpr> {
    let i0 = skip_ws(s, 0);
    if 0 <= i0 <= s.len() {
        match p_additive(s, i0) {
            Some((e, m)) => {
                if 0 <= m <= s.len() && skip_ws(s, m) == s.len() {
                    Some(e)
                } else {
                    None
                }
            },
            None => None,
        }
    } else {
        None
    }
}

/// Relies on `String::push`: appends one character to the end.
#[verifier::external_body]
fn push_char(out: &mut String, c: char)
    ensures
        final(out)@ == old(out)@ + seq![c],
{
    out.push(c);
}

/// The characters of a text, in order.
pub fn chars_of(s: &str) -> (r: Vec<char>)
    ensures
        r@ == s@,
{
    broadcast use vstd::string::axiom_spec_iter, vstd::string::next_postcondition;

    let mut it = s.chars();
    let mut out: Vec<char> = Vec::new();
    loop
        invariant
            it.obeys_prophetic_iter_laws(),
            it.decrease() is Some,
            out@ + it.remaining() == s@,
        decreases it.decrease()->0,
    {
        match it.next() {
            Some(c) => {
                out.push(c);
            },
            None => {
                proof {
                    assert(out@ =~= s@);
                }
                return out;
            },
        }
    }
}

/// Exec mirror of `skip_ws`.
fn ws_end(s: &Vec<char>, i: usize) -> (r: usize)
    requires
        i <= s@.len(),
    ensures
        r as int == skip_ws(s@, i as int),
        i <= r <= s@.len(),
{
    let n = s.len();
    let mut j = i;
    while j < n && (s[j] == ' ' || s[j] == '\t' || s[j] == '\n' || s[j] == '\r')
        invariant
            i <= j <= n,
            n == s@.len(),
            skip_ws(s@, i as int) == skip_ws(s@, j as int),
        decreases n - j,
    {
        j += 1;
    }
    j
}

/// Exec mirror of `scan_digits`.
fn digits_end(s: &Vec<char>, i: usize) -> (r: usize)
    requires
        i <= s@.len(),
    ensures
        r as int == scan_digits(s@, i as int),
        i <= r <= s@.len(),
{
    let n = s.len();
    let mut j = i;
    while j < n && 48 <= s[j] as u32 && s[j] as u32 <= 57
        invariant
            i <= j <= n,
            n == s@.len(),
            scan_digits(s@, i as int) == scan_digits(s@, j as int),
        decreases n - j,
    {
        j += 1;
    }
    j
}

/// Exec mirror of `scan_letters`.
fn letters_end(s: &Vec<char>, i: usize) -> (r: usize)
    requires
        i <= s@.len(),
    ensures
        r as int == scan_letters(s@, i as int),
        i <= r <= s@.len(),
{
    let n = s.len();
    let mut j = i;
    while j < n && letter(s[j])
        invariant
            i <= j <= n,
            n == s@.len(),
            scan_letters(s@, i as int) == scan_letters(s@, j as int),
        decreases n - j,
    {
        j += 1;
    }
    j
}

/// The integer value of the decimal digits in `s[start .. end]`.
fn digits_value(s: &Vec<char>, start: usize, end: usize) -> (r: Bignum)
    requires
        start <= end <= s@.len(),
        forall|k: int| start <= k < end ==> is_digit_char(#[trigger] s@[k]),
    ensures
        r.wf(),
        r@ == dec_val_of(s@.subrange(start as int, end as int)),
{
    let mut value = Bignum::zero();
    let ten = Bignum::from_u32(10);
    let mut j = start;
    proof {
        assert(s@.subrange(start as int, start as int) =~= Seq::empty());
    }
    while j < end
        invariant
            start <= j <= end <= s@.len(),
            forall|k: int| start <= k < end ==> is_digit_char(#[trigger] s@[k]),
            value.wf(),
            ten.wf(),
            ten@ == 10,
            value@ == dec_val_of(s@.subrange(start as int, j as int)),
        decreases end - j,
    {
        let c = s[j];
        let d: u32 = (c as u32) - 48;
        let scaled = big_mul(&value, &ten);
        value = big_add(&scaled, &Bignum::from_u32(d));
        proof {
            assert(s@.subrange(start as int, j + 1).drop_last() =~= s@.subrange(
                start as int,
                j as int,
            ));
            assert(s@.subrange(start as int, j + 1).last() == s@[j as int]);
        }
        j += 1;
    }
    value
}

/// The text in `s[start .. end]`, as an owned name.
fn name_of(s: &Vec<char>, start: usize, end: usize) -> (r: String)
    requires
        start <= end <= s@.len(),
    ensures
        r@ == s@.subrange(start as int, end as int),
{
    let mut out = String::new();
    let mut j = start;
    proof {
        assert(out@ =~= s@.subrange(start as int, start as int));
    }
    while j < end
        invariant
            start <= j <= end <= s@.len(),
            out@ == s@.subrange(start as int, j as int),
        decreases end - j,
    {
        push_char(&mut out, s[j]);
        proof {
            assert(out@ =~= s@.subrange(start as int, j + 1));
        }
        j += 1;
    }
    out
}

/// Whether the literal token `exp(`, `log(`, `ln(` or another short marker
/// stands at position `i`.
fn token_at(s: &Vec<char>, i: usize, t: &Vec<char>) -> (r: bool)
    requires
        i <= s@.len(),
    ensures
        r == has_token(s@, i as int, t@),
{
    let total = s.len();
    if total - i < t.len() {
        proof {
            assert(!has_token(s@, i as int, t@));
        }
        return false;
    }
    let n = t.len();
    let end = i + n;
    let mut k: usize = i;
    while k < end
        invariant
            i <= k <= end,
            end == i + n,
            n == t@.len(),
            end <= s@.len(),
            forall|q: int| i <= q < k ==> s@[q] == t@[q - i],
        decreases end - k,
    {
        if s[k] != t[k - i] {
            proof {
                assert(s@.subrange(i as int, i + n) != t@) by {
                    assert(s@.subrange(i as int, i + n)[k - i] == s@[k as int]);
                }
            }
            return false;
        }
        k += 1;
    }
    proof {
        assert(s@.subrange(i as int, i + n) =~= t@);
    }
    true
}

/// A parse outcome of the executable parser: the recognized subtree and the
/// position just after it.
type ExecStep = Option<(Expression<String>, usize)>;

/// Exec mirror of `p_additive`.
/// A product standing for a joined negation: `-1`, then the term.
fn neg_before(term: Expression<String>) -> (r: Expression<String>)
    requires
        expr_wf(term),
    ensures
        r@ == ExprModel::<Seq<char>>::Product(seq![ExprModel::Integer(-1), term@]),
        expr_wf(r),
{
    let ghost tv = term@;
    let minus_one = Expression::Integer(Bignum::from_i64(-1));
    let mut pair: Vec<Expression<String>> = Vec::new();
    proof {
        lemma_exprs_view_push(pair@, minus_one);
        lemma_exprs_wf_push(pair@, minus_one);
        assert(exprs_view(pair@) =~= Seq::empty());
    }
    pair.push(minus_one);
    proof {
        lemma_exprs_view_push(pair@, term);
        lemma_exprs_wf_push(pair@, term);
    }
    pair.push(term);
    let r = Expression::Product(pair);
    proof {
        assert(exprs_view(r->Product_0@) =~= seq![ExprModel::<Seq<char>>::Integer(-1), tv]);
    }
    r
}

#[verifier::rlimit(100)]
fn parse_additive(s: &Vec<char>, i: usize) -> (r: ExecStep)
    requires
        i <= s@.len(),
    ensures
        match r {
            Some((e, m)) => p_additive(s@, i as int) == Some((e@, m as int)) && expr_wf(e) && i < m
                <= s@.len(),
            None => p_additive(s@, i as int) is None,
        },
    decreases s@.len() - i, 5int,
{
    match parse_mult(s, i) {
        Some((first, m)) => {
            let mut terms: Vec<Expression<String>> = Vec::new();
            proof {
                lemma_exprs_view_push(terms@, first);
                lemma_exprs_wf_push(terms@, first);
                assert(exprs_view(terms@) =~= Seq::empty());
            }
            let ghost fv = first@;
            terms.push(first);
            proof {
                assert(exprs_view(terms@) =~= seq![fv]);
            }
            parse_additive_rest(s, m, terms)
        },
        None => {
            if i < s.len() && s[i] == '-' {
                let k = ws_end(s, i + 1);
                match parse_mult(s, k) {
                    Some((first, m)) => {
                        let negated = neg_before(first);
                        let ghost nv = negated@;
                        let mut terms: Vec<Expression<String>> = Vec::new();
                        proof {
                            lemma_exprs_view_push(terms@, negated);
                            lemma_exprs_wf_push(terms@, negated);
                            assert(exprs_view(terms@) =~= Seq::empty());
                        }
                        terms.push(negated);
                        proof {
                            assert(exprs_view(terms@) =~= seq![nv]);
                        }
                        parse_additive_rest(s, m, terms)
                    },
                    None => None,
                }
            } else {
                None
            }
        },
    }
}

/// Exec mirror of `p_additive_rest`.
#[verifier::rlimit(100)]
fn parse_additive_rest(s: &Vec<char>, i: usize, terms: Vec<Expression<String>>) -> (r: ExecStep)
    requires
        i <= s@.len(),
        terms@.len() >= 1,
        exprs_wf(terms@),
    ensures
        match r {
            Some((e, m)) => p_additive_rest(s@, i as int, exprs_view(terms@)) == Some((
                e@,
                m as int,
            )) && expr_wf(e) && i <= m <= s@.len(),
            None => p_additive_rest(s@, i as int, exprs_view(terms@)) is None,
        },
    decreases s@.len() - i, 9int,
{
    proof {
        crate::expression::lemma_exprs_view_index(terms@);
        crate::expression::lemma_exprs_wf_index(terms@);
    }
    let j = ws_end(s, i);
    if j < s.len() && (s[j] == '+' || s[j] == '-') {
        let plus = s[j] == '+';
        let k = ws_end(s, j + 1);
        match parse_mult(s, k) {
            Some((term, m)) => {
                let ghost tv = term@;
                let next = if plus {
                    term
                } else {
                    neg_before(term)
                };
                let mut grown = terms;
                proof {
                    lemma_exprs_view_push(grown@, next);
                    lemma_exprs_wf_push(grown@, next);
                }
                grown.push(next);
                parse_additive_rest(s, m, grown)
            },
            None => Some(finish_chain(terms, i, true)),
        }
    } else {
        Some(finish_chain(terms, i, true))
    }
}

/// The value of a finished additive or multiplicative chain: the single
/// member unwrapped, or the aggregate of all members.
fn finish_chain(terms: Vec<Expression<String>>, i: usize, additive: bool) -> (r: (
    Expression<String>,
    usize,
))
    requires
        terms@.len() >= 1,
        exprs_wf(terms@),
    ensures
        r.1 == i,
        expr_wf(r.0),
        exprs_view(terms@).len() == 1 ==> r.0@ == exprs_view(terms@)[0],
        additive && exprs_view(terms@).len() != 1 ==> r.0@ == ExprModel::Sum(exprs_view(terms@)),
        !additive && exprs_view(terms@).len() != 1 ==> r.0@ == ExprModel::Product(
            exprs_view(terms@),
        ),
{
    proof {
        crate::expression::lemma_exprs_view_index(terms@);
        crate::expression::lemma_exprs_wf_index(terms@);
    }
    if terms.len() == 1 {
        let mut owned = terms;
        match owned.pop() {
            Some(single) => (single, i),
            None => (Expression::Integer(Bignum::zero()), i),
        }
    } else {
        if additive {
            (Expression::Sum(terms), i)
        } else {
            (Expression::Product(terms), i)
        }
    }
}

/// Exec mirror of `p_mult`.
#[verifier::rlimit(100)]
fn parse_mult(s: &Vec<char>, i: usize) -> (r: ExecStep)
    requires
        i <= s@.len(),
    ensures
        match r {
            Some((e, m)) => p_mult(s@, i as int) == Some((e@, m as int)) && expr_wf(e) && i < m
                <= s@.len(),
            None => p_mult(s@, i as int) is None,
        },
    decreases s@.len() - i, 4int,
{
    match parse_power(s, i) {
        Some((first, m)) => {
            let j = ws_end(s, m);
            if j < s.len() && s[j] == '/' {
                let k = ws_end(s, j + 1);
                match parse_power(s, k) {
                    Some((second, m2)) => {
                        let ghost fv = first@;
                        let ghost sv = second@;
                        let q = Expression::Quotient(Box::new((first, second)));
                        proof {
                            assert(q@ == ExprModel::<Seq<char>>::Quotient(
                                Box::new(fv),
                                Box::new(sv),
                            ));
                            assert(p_mult(s@, i as int) == Some((q@, m2 as int)));
                        }
                        Some((q, m2))
                    },
                    None => Some((first, m)),
                }
            } else if j < s.len() && s[j] == '*' {
                let mut factors: Vec<Expression<String>> = Vec::new();
                proof {
                    lemma_exprs_view_push(factors@, first);
                    lemma_exprs_wf_push(factors@, first);
                    assert(exprs_view(factors@) =~= Seq::empty());
                }
                let ghost fv = first@;
                factors.push(first);
                proof {
                    assert(exprs_view(factors@) =~= seq![fv]);
                }
                parse_mult_rest(s, m, factors)
            } else {
                Some((first, m))
            }
        },
        None => None,
    }
}

/// Exec mirror of `p_mult_rest`.
#[verifier::rlimit(100)]
fn parse_mult_rest(s: &Vec<char>, i: usize, factors: Vec<Expression<String>>) -> (r: ExecStep)
    requires
        i <= s@.len(),
        factors@.len() >= 1,
        exprs_wf(factors@),
    ensures
        match r {
            Some((e, m)) => p_mult_rest(s@, i as int, exprs_view(factors@)) == Some((
                e@,
                m as int,
            )) && expr_wf(e) && i <= m <= s@.len(),
            None => p_mult_rest(s@, i as int, exprs_view(factors@)) is None,
        },
    decreases s@.len() - i, 9int,
{
    proof {
        crate::expression::lemma_exprs_view_index(factors@);
        crate::expression::lemma_exprs_wf_index(factors@);
    }
    let j = ws_end(s, i);
    if j < s.len() && s[j] == '*' {
        let k = ws_end(s, j + 1);
        match parse_power(s, k) {
            Some((factor, m)) => {
                let mut grown = factors;
                proof {
                    lemma_exprs_view_push(grown@, factor);
                    lemma_exprs_wf_push(grown@, factor);
                }
                grown.push(factor);
                parse_mult_rest(s, m, grown)
            },
            None => Some(finish_chain(factors, i, false)),
        }
    } else {
        Some(finish_chain(factors, i, false))
    }
}

/// Exec mirror of `p_power`.
#[verifier::rlimit(100)]
fn parse_power(s: &Vec<char>, i: usize) -> (r: ExecStep)
    requires
        i <= s@.len(),
    ensures
        match r {
            Some((e, m)) => p_power(s@, i as int) == Some((e@, m as int)) && expr_wf(e) && i < m
                <= s@.len(),
            None => p_power(s@, i as int) is None,
        },
    decreases s@.len() - i, 3int,
{
    match parse_primary(s, i) {
        Some((base, m)) => {
            let j = ws_end(s, m);
            if j < s.len() && s[j] == '^' {
                let k = ws_end(s, j + 1);
                match parse_primary(s, k) {
                    Some((exponent, m2)) => Some(
                        (Expression::Power(Box::new((base, exponent))), m2),
                    ),
                    None => Some((base, m)),
                }
            } else {
                Some((base, m))
            }
        },
        None => None,
    }
}

/// Exec mirror of `p_bracketed`.
fn parse_bracketed(s: &Vec<char>, i: usize, open_len: usize) -> (r: ExecStep)
    requires
        i + open_len <= s@.len(),
        open_len >= 1,
    ensures
        match r {
            Some((e, m)) => p_bracketed(s@, i as int, open_len as int) == Some((e@, m as int))
                && expr_wf(e) && i < m <= s@.len(),
            None => p_bracketed(s@, i as int, open_len as int) is None,
        },
    decreases s@.len() - i, 0int,
{
    let total = s.len();
    proof {
        assert(i + open_len <= total);
    }
    let k = ws_end(s, i + open_len);
    match parse_additive(s, k) {
        Some((inner, m)) => {
            let m2 = ws_end(s, m);
            if m2 < s.len() && s[m2] == ')' {
                Some((inner, m2 + 1))
            } else {
                None
            }
        },
        None => None,
    }
}

/// Exec mirror of `p_primary`.
#[verifier::rlimit(100)]
fn parse_primary(s: &Vec<char>, i: usize) -> (r: ExecStep)
    requires
        i <= s@.len(),
    ensures
        match r {
            Some((e, m)) => p_primary(s@, i as int) == Some((e@, m as int)) && expr_wf(e) && i < m
                <= s@.len(),
            None => p_primary(s@, i as int) is None,
        },
    decreases s@.len() - i, 1int,
{
    proof {
        reveal_strlit("exp(");
        reveal_strlit("log(");
        reveal_strlit("ln(");
    }
    let exp_token = exp_marker();
    let log_token = log_marker();
    let ln_token = ln_marker();
    if token_at(s, i, &exp_token) {
        match parse_bracketed(s, i, 4) {
            Some((inner, m)) => Some((Expression::Exponential(Box::new(inner)), m)),
            None => None,
        }
    } else if token_at(s, i, &log_token) {
        match parse_bracketed(s, i, 4) {
            Some((inner, m)) => Some((Expression::Logarithm(Box::new(inner)), m)),
            None => None,
        }
    } else if token_at(s, i, &ln_token) {
        match parse_bracketed(s, i, 3) {
            Some((inner, m)) => Some((Expression::Logarithm(Box::new(inner)), m)),
            None => None,
        }
    } else if i < s.len() && {
        let c = s[i] as u32;
        (48 <= c && c <= 57) || (s[i] == '-' && i + 1 < s.len() && {
            let c2 = s[i + 1] as u32;
            48 <= c2 && c2 <= 57
        })
    } {
        let negative = s[i] == '-';
        let start = if negative {
            i + 1
        } else {
            i
        };
        let end = digits_end(s, start);
        proof {
            lemma_scan_digits(s@, start as int);
        }
        if end > start {
            let magnitude = digits_value(s, start, end);
            let value = if negative {
                let minus_one = Bignum::from_i64(-1);
                big_mul(&magnitude, &minus_one)
            } else {
                magnitude
            };
            Some((Expression::Integer(value), end))
        } else {
            None
        }
    } else if i < s.len() && letter(s[i]) {
        let end = letters_end(s, i);
        if end > i {
            let name = name_of(s, i, end);
            Some((Expression::Variable(name), end))
        } else {
            None
        }
    } else if i < s.len() && s[i] == '(' {
        parse_bracketed(s, i, 1)
    } else {
        None
    }
}

/// The characters of the token `exp(`.
fn exp_marker() -> (r: Vec<char>)
    ensures
        r@ == "exp("@,
{
    proof {
        reveal_strlit("exp(");
    }
    let mut v: Vec<char> = Vec::new();
    v.push('e');
    v.push('x');
    v.push('p');
    v.push('(');
    proof {
        assert(v@ =~= "exp("@);
    }
    v
}

/// The characters of the token `log(`.
fn log_marker() -> (r: Vec<char>)
    ensures
        r@ == "log("@,
{
    proof {
        reveal_strlit("log(");
    }
    let mut v: Vec<char> = Vec::new();
    v.push('l');
    v.push('o');
    v.push('g');
    v.push('(');
    proof {
        assert(v@ =~= "log("@);
    }
    v
}

/// The characters of the token `ln(`.
fn ln_marker() -> (r: Vec<char>)
    ensures
        r@ == "ln("@,
{
    proof {
        reveal_strlit("ln(");
    }
    let mut v: Vec<char> = Vec::new();
    v.push('l');
    v.push('n');
    v.push('(');
    proof {
        assert(v@ =~= "ln("@);
    }
    v
}

/// Parses an expression from a text containing expression syntax: the whole
/// text, leading and trailing whitespace aside, must form one expression of
/// the grammar, or the parse fails with no partial result.
pub fn parse_expression(syntax: &str) -> (r: Result<Expression<String>, ()>)
    ensures
        match r {
            Ok(e) => spec_parse(syntax@) == Some(e@) && expr_wf(e),
            Err(_) => spec_parse(syntax@) is None,
        },
{
    let cs = chars_of(syntax);
    let i0 = ws_end(&cs, 0);
    match parse_additive(&cs, i0) {
        Some((e, m)) => {
            let m2 = ws_end(&cs, m);
            if m2 == cs.len() {
                Ok(e)
            } else {
                Err(())
            }
        },
        None => Err(()),
    }
}

} // verus!
