use vstd::prelude::*;
use vstd::arithmetic::div_mod::lemma_fundamental_div_mod;
use crate::bignum::{is_digit_char, digit_val, dec_val_of, dec_digits_of, dec_str_of, digit_char};
use crate::expression::ExprModel;
use crate::reduce::{is_canonical, canonical_seq};
use crate::reduce_laws::lemma_canonical_seq_index;
use crate::render::{spec_render, render_list};
use crate::parser::{
    is_letter, is_space, skip_ws, scan_digits, scan_letters, has_token, p_additive,
    p_additive_rest, p_mult, p_mult_rest, p_power, p_bracketed, p_primary, spec_parse, ParsedExpr,
    lemma_skip_ws, lemma_scan_digits, lemma_scan_letters,
};

verus! {

/// `w` stands in `s` at position `i`.
pub open spec fn sub_at(s: Seq<char>, i: int, w: Seq<char>) -> bool {
    0 <= i && i + w.len() <= s.len() && s.subrange(i, i + w.len()) == w
}

/// A window splits over concatenation.
pub proof fn lemma_sub_at_concat(s: Seq<char>, i: int, a: Seq<char>, b: Seq<char>)
    requires
        sub_at(s, i, a + b),
    ensures
        sub_at(s, i, a),
        sub_at(s, i + a.len(), b),
{
    assert(s.subrange(i, i + a.len()) =~= a) by {
        assert forall|q: int| 0 <= q < a.len() implies s.subrange(i, i + a.len())[q] == a[q] by {
            assert(s.subrange(i, i + (a + b).len())[q] == (a + b)[q]);
        }
    }
    assert(s.subrange(i + a.len(), i + a.len() + b.len()) =~= b) by {
        assert forall|q: int| 0 <= q < b.len() implies s.subrange(
            i + a.len(),
            i + a.len() + b.len(),
        )[q] == b[q] by {
            assert(s.subrange(i, i + (a + b).len())[a.len() + q] == (a + b)[a.len() + q]);
        }
    }
}

/// The characters under a window are the window's.
pub proof fn lemma_sub_at_index(s: Seq<char>, i: int, w: Seq<char>)
    requires
        sub_at(s, i, w),
    ensures
        forall|q: int| 0 <= q < w.len() ==> s[i + q] == #[trigger] w[q],
{
    assert forall|q: int| 0 <= q < w.len() implies s[i + q] == #[trigger] w[q] by {
        assert(s.subrange(i, i + w.len())[q] == w[q]);
    }
}

/// Every decimal digit sequence is nonempty and all digits.
pub proof fn lemma_dec_digits_chars(n: nat)
    ensures
        dec_digits_of(n).len() >= 1,
        forall|q: int| 0 <= q < dec_digits_of(n).len() ==> is_digit_char(
            #[trigger] dec_digits_of(n)[q],
        ),
    decreases n,
{
    if n < 10 {
        assert(is_digit_char(digit_char(n as int)));
    } else {
        lemma_dec_digits_chars(n / 10);
        assert(is_digit_char(digit_char((n % 10) as int)));
        assert forall|q: int| 0 <= q < dec_digits_of(n).len() implies is_digit_char(
            #[trigger] dec_digits_of(n)[q],
        ) by {
            if q < dec_digits_of(n / 10).len() {
                assert(dec_digits_of(n)[q] == dec_digits_of(n / 10)[q]);
            } else {
                assert(dec_digits_of(n)[q] == digit_char((n % 10) as int));
            }
        }
    }
}

/// Reading the decimal digits of a natural number back gives the number.
pub proof fn lemma_dec_round_trip(n: nat)
    ensures
        dec_val_of(dec_digits_of(n)) == n,
    decreases n,
{
    if n < 10 {
        reveal_with_fuel(dec_val_of, 2);
        assert(dec_digits_of(n).drop_last() =~= Seq::empty());
        assert(dec_digits_of(n).last() == digit_char(n as int));
        assert(digit_val(digit_char(n as int)) == n);
    } else {
        lemma_dec_round_trip(n / 10);
        let whole = dec_digits_of(n);
        assert(whole.drop_last() =~= dec_digits_of(n / 10));
        assert(whole.last() == digit_char((n % 10) as int));
        assert(digit_val(digit_char((n % 10) as int)) == n % 10);
        lemma_fundamental_div_mod(n as int, 10);
        assert(dec_val_of(whole) == dec_val_of(dec_digits_of(n / 10)) * 10 + n % 10);
        assert((n / 10) * 10 + n % 10 == 10 * (n / 10) + n % 10) by (nonlinear_arith);
    }
}

/// A maximal digit run under a window scans to the window's end.
pub proof fn lemma_scan_digits_window(s: Seq<char>, i: int, w: Seq<char>)
    requires
        sub_at(s, i, w),
        forall|q: int| 0 <= q < w.len() ==> is_digit_char(#[trigger] w[q]),
        i + w.len() < s.len() ==> !is_digit_char(s[i + w.len()]),
    ensures
        scan_digits(s, i) == i + w.len(),
    decreases w.len(),
{
    lemma_sub_at_index(s, i, w);
    if w.len() == 0 {
    } else {
        assert(s[i] == w[0]);
        assert(seq![w[0]] + w.drop_first() =~= w);
        lemma_sub_at_concat(s, i, seq![w[0]], w.drop_first());
        assert forall|q: int| 0 <= q < w.drop_first().len() implies is_digit_char(
            #[trigger] w.drop_first()[q],
        ) by {
            assert(w.drop_first()[q] == w[q + 1]);
        }
        lemma_scan_digits_window(s, i + 1, w.drop_first());
    }
}

/// A maximal letter run under a window scans to the window's end.
pub proof fn lemma_scan_letters_window(s: Seq<char>, i: int, w: Seq<char>)
    requires
        sub_at(s, i, w),
        forall|q: int| 0 <= q < w.len() ==> is_letter(#[trigger] w[q]),
        i + w.len() < s.len() ==> !is_letter(s[i + w.len()]),
    ensures
        scan_letters(s, i) == i + w.len(),
    decreases w.len(),
{
    lemma_sub_at_index(s, i, w);
    if w.len() == 0 {
    } else {
        assert(s[i] == w[0]);
        assert(seq![w[0]] + w.drop_first() =~= w);
        lemma_sub_at_concat(s, i, seq![w[0]], w.drop_first());
        assert forall|q: int| 0 <= q < w.drop_first().len() implies is_letter(
            #[trigger] w.drop_first()[q],
        ) by {
            assert(w.drop_first()[q] == w[q + 1]);
        }
        lemma_scan_letters_window(s, i + 1, w.drop_first());
    }
}

/// Variable names the grammar can read back: nonempty, made of letters.
pub open spec fn names_ok(e: ParsedExpr) -> bool
    decreases e,
{
    match e {
        ExprModel::Sum(ts) => names_ok_seq(ts),
        ExprModel::Product(fs) => names_ok_seq(fs),
        ExprModel::Quotient(n, d) => names_ok(*n) && names_ok(*d),
        ExprModel::Power(b, x) => names_ok(*b) && names_ok(*x),
        ExprModel::Exponential(t) => names_ok(*t),
        ExprModel::Logarithm(t) => names_ok(*t),
        ExprModel::Variable(name) => name.len() >= 1 && (forall|q: int|
            0 <= q < name.len() ==> is_letter(#[trigger] name[q])),
        ExprModel::Integer(_) => true,
    }
}

/// Readable names in every tree of a sequence.
pub open spec fn names_ok_seq(s: Seq<ParsedExpr>) -> bool
    decreases s,
{
    if s.len() == 0 {
        true
    } else {
        names_ok(s[0]) && names_ok_seq(s.drop_first())
    }
}

/// `names_ok_seq` holds exactly when every element has readable names.
pub proof fn lemma_names_ok_seq_index(s: Seq<ParsedExpr>)
    ensures
        names_ok_seq(s) <==> (forall|i: int| 0 <= i < s.len() ==> names_ok(#[trigger] s[i])),
    decreases s.len(),
{
    if s.len() > 0 {
        lemma_names_ok_seq_index(s.drop_first());
        if names_ok_seq(s) {
            assert forall|i: int| 0 <= i < s.len() implies names_ok(#[trigger] s[i]) by {
                if i > 0 {
                    assert(s.drop_first()[i - 1] == s[i]);
                }
            }
        }
        if forall|i: int| 0 <= i < s.len() ==> names_ok(#[trigger] s[i]) {
            assert forall|i: int| 0 <= i < s.drop_first().len() implies names_ok(
                #[trigger] s.drop_first()[i],
            ) by {
                assert(s.drop_first()[i] == s[i + 1]);
            }
        }
    }
}

/// The character at `j` ends a rendered tree: the end of the text or a
/// closing mark.
pub open spec fn stops(s: Seq<char>, j: int) -> bool {
    j == s.len() || (0 <= j < s.len() && s[j] == ')')
}

/// A rendering is never empty and never begins with whitespace, a joiner, or
/// a closing mark.
pub proof fn lemma_render_head(t: ParsedExpr)
    requires
        is_canonical(t),
        names_ok(t),
    ensures
        spec_render(t).len() >= 1,
        !is_space(spec_render(t)[0]),
        spec_render(t)[0] != ')',
        spec_render(t)[0] != '^',
        spec_render(t)[0] != '/',
        spec_render(t)[0] != '*',
        spec_render(t)[0] != '+',
{
    reveal_strlit("(");
    reveal_strlit(")");
    reveal_strlit("exp(");
    reveal_strlit("ln(");
    match t {
        ExprModel::Sum(ts) => {
            assert(spec_render(t) == render_list(ts, " + "@, 0));
            assert(render_list(ts, " + "@, 0)[0] == '(');
        },
        ExprModel::Product(fs) => {
            assert(render_list(fs, " * "@, 0)[0] == '(');
        },
        ExprModel::Quotient(n, d) => {
            assert(spec_render(t)[0] == '(');
        },
        ExprModel::Power(b, x) => {
            assert(spec_render(t)[0] == '(');
        },
        ExprModel::Exponential(op) => {
            assert(spec_render(t)[0] == 'e');
        },
        ExprModel::Logarithm(op) => {
            assert(spec_render(t)[0] == 'l');
        },
        ExprModel::Variable(name) => {
            assert(spec_render(t) == name);
            assert(is_letter(name[0]));
        },
        ExprModel::Integer(v) => {
            lemma_dec_digits_chars(if v < 0 {
                (-v) as nat
            } else {
                v as nat
            });
            if v < 0 {
                reveal_strlit("-");
                assert(spec_render(t)[0] == '-');
            } else {
                assert(is_digit_char(spec_render(t)[0]));
            }
        },
    }
}

/// The characters of the fixed rendering tokens.
proof fn lemma_token_chars()
    ensures
        "("@ =~= seq!['('],
        ")"@ =~= seq![')'],
        "-"@ =~= seq!['-'],
        " + "@ =~= seq![' ', '+', ' '],
        " * "@ =~= seq![' ', '*', ' '],
        " / "@ =~= seq![' ', '/', ' '],
        " ^ "@ =~= seq![' ', '^', ' '],
        "exp("@ =~= seq!['e', 'x', 'p', '('],
        "log("@ =~= seq!['l', 'o', 'g', '('],
        "ln("@ =~= seq!['l', 'n', '('],
{
    reveal_strlit("(");
    reveal_strlit(")");
    reveal_strlit("-");
    reveal_strlit(" + ");
    reveal_strlit(" * ");
    reveal_strlit(" / ");
    reveal_strlit(" ^ ");
    reveal_strlit("exp(");
    reveal_strlit("log(");
    reveal_strlit("ln(");
}

/// Skipping whitespace from a space that a non-space follows moves one
/// position; from a non-space it stays.
proof fn lemma_ws_step(s: Seq<char>, m: int)
    requires
        0 <= m,
        m + 1 < s.len(),
        is_space(s[m]),
        !is_space(s[m + 1]),
    ensures
        skip_ws(s, m) == m + 1,
{
    reveal_with_fuel(skip_ws, 3);
}

/// Over a window of letters ending at a stop, none of the function-form
/// tokens stands at the window's start.
proof fn lemma_no_function_token(s: Seq<char>, i: int, name: Seq<char>)
    requires
        sub_at(s, i, name),
        name.len() >= 1,
        forall|q: int| 0 <= q < name.len() ==> is_letter(#[trigger] name[q]),
        stops(s, i + name.len()),
    ensures
        !has_token(s, i, "exp("@),
        !has_token(s, i, "log("@),
        !has_token(s, i, "ln("@),
{
    lemma_token_chars();
    lemma_sub_at_index(s, i, name);
    let n = name.len() as int;
    if has_token(s, i, "exp("@) {
        lemma_sub_at_index(s, i, "exp("@);
        if n >= 4 {
            assert(s[i + 3] == "exp("@[3]);
            assert(s[i + 3] == name[3]);
            assert(is_letter(name[3]));
        } else {
            assert(s[i + n] == ')');
            assert(s[i + n] == "exp("@[n]);
            assert("exp("@[1] == 'x' && "exp("@[2] == 'p' && "exp("@[3] == '(');
        }
    }
    if has_token(s, i, "log("@) {
        lemma_sub_at_index(s, i, "log("@);
        if n >= 4 {
            assert(s[i + 3] == "log("@[3]);
            assert(s[i + 3] == name[3]);
            assert(is_letter(name[3]));
        } else {
            assert(s[i + n] == ')');
            assert(s[i + n] == "log("@[n]);
            assert("log("@[1] == 'o' && "log("@[2] == 'g' && "log("@[3] == '(');
        }
    }
    if has_token(s, i, "ln("@) {
        lemma_sub_at_index(s, i, "ln("@);
        if n >= 3 {
            assert(s[i + 2] == "ln("@[2]);
            assert(s[i + 2] == name[2]);
            assert(is_letter(name[2]));
        } else {
            assert(s[i + n] == ')');
            assert(s[i + n] == "ln("@[n]);
            assert("ln("@[1] == 'n' && "ln("@[2] == '(');
        }
    }
}

/// A rendered canonical tree followed by a stop is recognized by the additive
/// level, in full, as exactly that tree.
#[verifier::rlimit(100)]
pub proof fn lemma_parse_of_render(t: ParsedExpr, s: Seq<char>, i: int)
    requires
        is_canonical(t),
        names_ok(t),
        sub_at(s, i, spec_render(t)),
        stops(s, i + spec_render(t).len()),
    ensures
        p_additive(s, i) == Some((t, i + spec_render(t).len())),
    decreases t, 3int, 0int,
{
    reveal_strlit("(");
    reveal_strlit(")");
    reveal_strlit(" + ");
    let w = spec_render(t);
    let j = i + w.len();
    lemma_render_head(t);
    match t {
        ExprModel::Sum(ts) => {
            lemma_canonical_seq_index(ts);
            lemma_names_ok_seq_index(ts);
            assert(w == render_list(ts, " + "@, 0));
            let a1 = "("@ + spec_render(ts[0]) + ")"@;
            let tail = render_list(ts, " + "@, 1);
            assert(render_list(ts, " + "@, 0) == Seq::<char>::empty() + "("@ + spec_render(
                ts[0],
            ) + ")"@ + render_list(ts, " + "@, 1));
            assert(w =~= a1 + tail);
            lemma_sub_at_concat(s, i, a1, tail);
            assert(sub_at(s, i, a1));
            lemma_primary_of_wrapped(ts[0], s, i);
            let m0 = i + spec_render(ts[0]).len() + 2;
            lemma_list_suffix_head(ts, " + "@, 1, s, m0, j);
            assert(s[m0] == ' ' && s[m0 + 1] == '+');
            lemma_ws_step(s, m0);
            assert(p_power(s, i) == Some((ts[0], m0)));
            assert(p_mult(s, i) == Some((ts[0], m0)));
            lemma_sum_chain(ts, 1, s, m0);
            assert(ts.take(1) =~= seq![ts[0]]);
        },
        _ => {
            lemma_mult_of_render(t, s, i);
            // The additive level takes the single multiplicative term and
            // finds no joiner after it.
            lemma_skip_ws(s, j);
            assert(skip_ws(s, j) == j);
            assert(p_additive_rest(s, j, seq![t]) == Some((t, j))) by {
                if j < s.len() {
                    assert(s[j] == ')');
                }
                assert(seq![t].len() == 1 && seq![t][0] == t);
            }
        },
    }
}

/// A rendered canonical tree followed by a stop is recognized by the
/// multiplicative level.
pub proof fn lemma_mult_of_render(t: ParsedExpr, s: Seq<char>, i: int)
    requires
        is_canonical(t),
        names_ok(t),
        !(t is Sum),
        sub_at(s, i, spec_render(t)),
        stops(s, i + spec_render(t).len()),
    ensures
        p_mult(s, i) == Some((t, i + spec_render(t).len())),
    decreases t, 2int, 0int,
{
    let w = spec_render(t);
    let j = i + w.len();
    match t {
        ExprModel::Product(fs) => {
            lemma_mult_of_render_product(t, s, i);
        },
        ExprModel::Quotient(n, d) => {
            lemma_mult_of_render_quotient(t, s, i);
        },
        _ => {
            // Any other canonical tree is one power-level term; no joiner
            // follows it.
            lemma_token_chars();
            lemma_power_of_render(t, s, i);
            lemma_skip_ws(s, j);
            assert(skip_ws(s, j) == j);
            if j < s.len() {
                assert(s[j] == ')');
            }
        },
    }
}

/// The multiplicative level on a rendered canonical product: the first
/// wrapped factor, then the `*`-joined chain.
#[verifier::rlimit(100)]
proof fn lemma_mult_of_render_product(t: ParsedExpr, s: Seq<char>, i: int)
    requires
        is_canonical(t),
        names_ok(t),
        t is Product,
        sub_at(s, i, spec_render(t)),
        stops(s, i + spec_render(t).len()),
    ensures
        p_mult(s, i) == Some((t, i + spec_render(t).len())),
    decreases t, 1int, 1int,
{
    let w = spec_render(t);
    let j = i + w.len();
    lemma_render_head(t);
    lemma_token_chars();
    let fs = t->Product_0;
    lemma_canonical_seq_index(fs);
    lemma_names_ok_seq_index(fs);
    let a1 = "("@ + spec_render(fs[0]) + ")"@;
    let tail = render_list(fs, " * "@, 1);
    assert(render_list(fs, " * "@, 0) == Seq::<char>::empty() + "("@ + spec_render(fs[0]) + ")"@
        + render_list(fs, " * "@, 1));
    assert(w =~= a1 + tail);
    lemma_sub_at_concat(s, i, a1, tail);
    lemma_primary_of_wrapped(fs[0], s, i);
    let m0 = i + spec_render(fs[0]).len() + 2;
    // After the first factor: the separator of the next one.
    lemma_list_suffix_head(fs, " * "@, 1, s, m0, j);
    assert(s[m0] == ' ' && s[m0 + 1] == '*');
    lemma_ws_step(s, m0);
    assert(p_power(s, i) == Some((fs[0], m0)));
    lemma_mult_chain(fs, 1, s, m0, i);
    assert(fs.take(1) =~= seq![fs[0]]);
}

/// The multiplicative level on a rendered canonical quotient: two wrapped
/// power-level operands joined by the division mark.
#[verifier::rlimit(100)]
#[verifier::spinoff_prover]
proof fn lemma_mult_of_render_quotient(t: ParsedExpr, s: Seq<char>, i: int)
    requires
        is_canonical(t),
        names_ok(t),
        t is Quotient,
        sub_at(s, i, spec_render(t)),
        stops(s, i + spec_render(t).len()),
    ensures
        p_mult(s, i) == Some((t, i + spec_render(t).len())),
    decreases t, 1int, 1int,
{
    let w = spec_render(t);
    let j = i + w.len();
    lemma_token_chars();
    let n = t->Quotient_0;
    let d = t->Quotient_1;
    let rn = spec_render(*n);
    let rd = spec_render(*d);
    let a1 = "("@ + rn + ")"@;
    let a2 = " / "@;
    let a3 = "("@ + rd + ")"@;
    assert(w =~= (a1 + a2) + a3);
    lemma_sub_at_concat(s, i, a1 + a2, a3);
    lemma_sub_at_concat(s, i, a1, a2);
    lemma_primary_of_wrapped(*n, s, i);
    let m0 = i + rn.len() + 2;
    lemma_sub_at_index(s, m0, " / "@);
    assert(s[m0] == ' ' && s[m0 + 1] == '/' && s[m0 + 2] == ' ');
    let k0 = m0 + 3;
    lemma_primary_of_wrapped(*d, s, k0);
    let m1 = k0 + rd.len() + 2;
    assert(m1 == j);
    // The dividend climbs to the power level: a space follows it.
    lemma_ws_step(s, m0);
    assert(p_power(s, i) == Some((*n, m0)));
    // After the `/`, whitespace runs to the divisor's opening mark.
    assert(s[k0] == '(') by {
        assert(("("@ + (rd + ")"@)) =~= a3);
        lemma_sub_at_concat(s, k0, "("@, rd + ")"@);
        lemma_sub_at_index(s, k0, "("@);
        assert(s[k0] == "("@[0]);
    }
    lemma_ws_step(s, m0 + 2);
    // The divisor climbs to the power level: the stop follows it.
    lemma_skip_ws(s, m1);
    assert(skip_ws(s, m1) == m1);
    if m1 < s.len() {
        assert(s[m1] == ')');
    }
    assert(p_power(s, k0) == Some((*d, m1)));
}

/// The separator and wrapped element at the head of a rendered list suffix.
proof fn lemma_list_suffix_head(
    ts: Seq<ParsedExpr>,
    sep: Seq<char>,
    k: int,
    s: Seq<char>,
    pos: int,
    j: int,
)
    requires
        1 <= k < ts.len(),
        sep.len() == 3,
        sub_at(s, pos, render_list(ts, sep, k)),
        j == pos + render_list(ts, sep, k).len(),
    ensures
        sub_at(s, pos, sep),
        sub_at(s, pos + 3, "("@ + spec_render(ts[k]) + ")"@),
        sub_at(
            s,
            pos + 3 + spec_render(ts[k]).len() + 2,
            render_list(ts, sep, k + 1),
        ),
        s[pos] == sep[0] && s[pos + 1] == sep[1] && s[pos + 2] == sep[2],
{
    lemma_token_chars();
    let piece = "("@ + spec_render(ts[k]) + ")"@;
    assert(render_list(ts, sep, k) == sep + "("@ + spec_render(ts[k]) + ")"@ + render_list(
        ts,
        sep,
        k + 1,
    ));
    assert(render_list(ts, sep, k) =~= (sep + piece) + render_list(ts, sep, k + 1));
    lemma_sub_at_concat(s, pos, sep + piece, render_list(ts, sep, k + 1));
    lemma_sub_at_concat(s, pos, sep, piece);
    lemma_sub_at_index(s, pos, sep);
}

/// The chain of `*`-joined factors after the first: from position `pos`,
/// which holds the rendering of factors `k` on, the multiplicative chain
/// completes the whole product.
#[verifier::rlimit(100)]
proof fn lemma_mult_chain(fs: Seq<ParsedExpr>, k: int, s: Seq<char>, pos: int, start: int)
    requires
        is_canonical(ExprModel::Product(fs)),
        names_ok_seq(fs),
        1 <= k <= fs.len(),
        sub_at(s, pos, render_list(fs, " * "@, k)),
        stops(s, pos + render_list(fs, " * "@, k).len()),
    ensures
        p_mult_rest(s, pos, fs.take(k)) == Some((ExprModel::Product(fs), pos + render_list(
            fs,
            " * "@,
            k,
        ).len())),
    decreases fs, 1int, fs.len() - k,
{
    reveal_strlit(" * ");
    reveal_strlit("(");
    reveal_strlit(")");
    lemma_canonical_seq_index(fs);
    lemma_names_ok_seq_index(fs);
    let j = pos + render_list(fs, " * "@, k).len();
    if k == fs.len() {
        assert(render_list(fs, " * "@, k).len() == 0);
        lemma_skip_ws(s, pos);
        assert(skip_ws(s, pos) == pos);
        if pos < s.len() {
            assert(s[pos] == ')');
        }
        assert(fs.take(k) =~= fs);
    } else {
        lemma_list_suffix_head(fs, " * "@, k, s, pos, j);
        assert(s[pos] == ' ' && s[pos + 1] == '*' && s[pos + 2] == ' ');
        lemma_ws_step(s, pos);
        let k0 = pos + 3;
        lemma_primary_of_wrapped(fs[k], s, k0);
        assert(s[k0] == '(') by {
            assert(("("@ + (spec_render(fs[k]) + ")"@)) =~= "("@ + spec_render(fs[k]) + ")"@);
            lemma_sub_at_concat(s, k0, "("@, spec_render(fs[k]) + ")"@);
            lemma_sub_at_index(s, k0, "("@);
            assert(s[k0] == "("@[0]);
        }
        lemma_ws_step(s, pos + 2);
        let m1 = k0 + spec_render(fs[k]).len() + 2;
        // The factor climbs to the power level: what follows is a separator,
        // a closing mark, or the end, never a caret.
        assert(p_power(s, k0) == Some((fs[k], m1))) by {
            lemma_after_wrapped(fs, " * "@, k, s, m1, j);
        }
        lemma_after_wrapped(fs, " * "@, k, s, m1, j);
        lemma_mult_chain(fs, k + 1, s, m1, start);
        assert(fs.take(k).push(fs[k]) =~= fs.take(k + 1));
    }
}

/// After a wrapped list element: either the next separator begins, or the
/// whole list's stop character stands there.
proof fn lemma_after_wrapped(
    ts: Seq<ParsedExpr>,
    sep: Seq<char>,
    k: int,
    s: Seq<char>,
    m1: int,
    j: int,
)
    requires
        1 <= k < ts.len(),
        sep.len() == 3,
        is_space(sep[0]),
        !is_space(sep[1]),
        sub_at(s, m1, render_list(ts, sep, k + 1)),
        j == m1 + render_list(ts, sep, k + 1).len(),
        stops(s, j),
        m1 <= s.len(),
    ensures
        skip_ws(s, m1) == m1 || (m1 < s.len() && is_space(s[m1]) && skip_ws(s, m1) == m1 + 1),
        skip_ws(s, m1) < s.len() ==> (s[skip_ws(s, m1)] == sep[1] || s[skip_ws(s, m1)] == ')'),
        k + 1 < ts.len() ==> (s[m1] == sep[0] && s[m1 + 1] == sep[1] && skip_ws(s, m1) == m1 + 1),
        k + 1 == ts.len() ==> skip_ws(s, m1) == m1,
{
    if k + 1 < ts.len() {
        lemma_list_suffix_head(ts, sep, k + 1, s, m1, j);
        assert(s[m1] == sep[0] && s[m1 + 1] == sep[1]);
        assert(!is_space(s[m1 + 1]));
        lemma_ws_step(s, m1);
    } else {
        assert(render_list(ts, sep, k + 1).len() == 0);
        assert(m1 == j);
        lemma_skip_ws(s, m1);
        assert(skip_ws(s, m1) == m1) by {
            if m1 < s.len() {
                assert(s[m1] == ')');
            }
        }
        if m1 < s.len() {
            assert(s[m1] == ')');
        }
    }
}

/// The chain of `+`-joined terms after the first: from position `pos`, which
/// holds the rendering of terms `k` on, the additive chain completes the
/// whole sum.
#[verifier::rlimit(100)]
proof fn lemma_sum_chain(ts: Seq<ParsedExpr>, k: int, s: Seq<char>, pos: int)
    requires
        is_canonical(ExprModel::Sum(ts)),
        names_ok_seq(ts),
        1 <= k <= ts.len(),
        sub_at(s, pos, render_list(ts, " + "@, k)),
        stops(s, pos + render_list(ts, " + "@, k).len()),
    ensures
        p_additive_rest(s, pos, ts.take(k)) == Some((ExprModel::Sum(ts), pos + render_list(
            ts,
            " + "@,
            k,
        ).len())),
    decreases ts, 1int, ts.len() - k,
{
    reveal_strlit(" + ");
    reveal_strlit("(");
    reveal_strlit(")");
    lemma_canonical_seq_index(ts);
    lemma_names_ok_seq_index(ts);
    let j = pos + render_list(ts, " + "@, k).len();
    if k == ts.len() {
        assert(render_list(ts, " + "@, k).len() == 0);
        lemma_skip_ws(s, pos);
        assert(skip_ws(s, pos) == pos);
        if pos < s.len() {
            assert(s[pos] == ')');
        }
        assert(ts.take(k) =~= ts);
    } else {
        lemma_list_suffix_head(ts, " + "@, k, s, pos, j);
        assert(s[pos] == ' ' && s[pos + 1] == '+' && s[pos + 2] == ' ');
        lemma_ws_step(s, pos);
        let k0 = pos + 3;
        lemma_primary_of_wrapped(ts[k], s, k0);
        assert(s[k0] == '(') by {
            assert(("("@ + (spec_render(ts[k]) + ")"@)) =~= "("@ + spec_render(ts[k]) + ")"@);
            lemma_sub_at_concat(s, k0, "("@, spec_render(ts[k]) + ")"@);
            lemma_sub_at_index(s, k0, "("@);
            assert(s[k0] == "("@[0]);
        }
        lemma_ws_step(s, pos + 2);
        let m1 = k0 + spec_render(ts[k]).len() + 2;
        lemma_after_wrapped(ts, " + "@, k, s, m1, j);
        assert(p_power(s, k0) == Some((ts[k], m1)));
        assert(p_mult(s, k0) == Some((ts[k], m1)));
        lemma_sum_chain(ts, k + 1, s, m1);
        assert(ts.take(k).push(ts[k]) =~= ts.take(k + 1));
    }
}

/// A rendered canonical tree that is not a sum, product or quotient is
/// recognized by the power level.
#[verifier::rlimit(100)]
proof fn lemma_power_of_render(t: ParsedExpr, s: Seq<char>, i: int)
    requires
        is_canonical(t),
        names_ok(t),
        !(t is Sum),
        !(t is Product),
        !(t is Quotient),
        sub_at(s, i, spec_render(t)),
        stops(s, i + spec_render(t).len()),
    ensures
        p_power(s, i) == Some((t, i + spec_render(t).len())),
    decreases t, 1int, 0int,
{
    reveal_strlit("(");
    reveal_strlit(")");
    reveal_strlit(" ^ ");
    let w = spec_render(t);
    let j = i + w.len();
    lemma_render_head(t);
    match t {
        ExprModel::Power(b, x) => {
            lemma_token_chars();
            let rb = spec_render(*b);
            let rx = spec_render(*x);
            let a1 = "("@ + rb + ")"@;
            let a2 = " ^ "@;
            let a3 = "("@ + rx + ")"@;
            assert(w =~= (a1 + a2) + a3);
            lemma_sub_at_concat(s, i, a1 + a2, a3);
            lemma_sub_at_concat(s, i, a1, a2);
            lemma_primary_of_wrapped(*b, s, i);
            let m0 = i + rb.len() + 2;
            lemma_sub_at_index(s, m0, " ^ "@);
            assert(s[m0] == ' ' && s[m0 + 1] == '^' && s[m0 + 2] == ' ');
            let k0 = m0 + 3;
            lemma_primary_of_wrapped(*x, s, k0);
            lemma_ws_step(s, m0);
            assert(s[k0] == '(') by {
                assert(("("@ + (rx + ")"@)) =~= a3);
                lemma_sub_at_concat(s, k0, "("@, rx + ")"@);
                lemma_sub_at_index(s, k0, "("@);
                assert(s[k0] == "("@[0]);
            }
            lemma_ws_step(s, m0 + 2);
            assert(k0 + rx.len() + 2 == j);
        },
        _ => {
            lemma_primary_of_render(t, s, i);
            lemma_skip_ws(s, j);
            assert(skip_ws(s, j) == j);
            if j < s.len() {
                assert(s[j] == ')');
            }
        },
    }
}

/// A rendered leaf or function form is recognized by the primary level.
#[verifier::rlimit(100)]
proof fn lemma_primary_of_render(t: ParsedExpr, s: Seq<char>, i: int)
    requires
        is_canonical(t),
        names_ok(t),
        t is Integer || t is Variable || t is Exponential || t is Logarithm,
        sub_at(s, i, spec_render(t)),
        stops(s, i + spec_render(t).len()),
    ensures
        p_primary(s, i) == Some((t, i + spec_render(t).len())),
    decreases t, 0int, 0int,
{
    reveal_strlit("(");
    reveal_strlit(")");
    reveal_strlit("-");
    reveal_strlit("exp(");
    reveal_strlit("log(");
    reveal_strlit("ln(");
    lemma_token_chars();
    let w = spec_render(t);
    let j = i + w.len();
    lemma_sub_at_index(s, i, w);
    match t {
        ExprModel::Integer(v) => {
            let magnitude: nat = if v < 0 {
                (-v) as nat
            } else {
                v as nat
            };
            let digits = dec_digits_of(magnitude);
            lemma_dec_digits_chars(magnitude);
            lemma_dec_round_trip(magnitude);
            assert(!has_token(s, i, "exp("@) && !has_token(s, i, "log("@) && !has_token(
                s,
                i,
                "ln("@,
            )) by {
                if v < 0 {
                    assert(w[0] == '-');
                } else {
                    assert(is_digit_char(w[0]));
                }
                if has_token(s, i, "exp("@) {
                    lemma_sub_at_index(s, i, "exp("@);
                    assert(s[i] == "exp("@[0]);
                }
                if has_token(s, i, "log("@) {
                    lemma_sub_at_index(s, i, "log("@);
                    assert(s[i] == "log("@[0]);
                }
                if has_token(s, i, "ln("@) {
                    lemma_sub_at_index(s, i, "ln("@);
                    assert(s[i] == "ln("@[0]);
                }
            }
            if v < 0 {
                lemma_token_chars();
                assert(w =~= seq!['-'] + digits);
                lemma_sub_at_concat(s, i, seq!['-'], digits);
                lemma_sub_at_index(s, i, seq!['-']);
                assert(s[i] == seq!['-'][0]);
                assert(s[i] == '-');
                lemma_sub_at_index(s, i + 1, digits);
                assert(s[i + 1] == digits[0]);
                assert(is_digit_char(s[i + 1]));
                lemma_scan_digits_window(s, i + 1, digits);
                assert(s.subrange(i + 1, i + 1 + digits.len()) == digits);
                assert(dec_val_of(s.subrange(i + 1, j)) == magnitude);
                assert(!is_digit_char('-'));
            } else {
                assert(w == digits);
                lemma_scan_digits_window(s, i, digits);
                assert(is_digit_char(s[i]));
                assert(dec_val_of(s.subrange(i, j)) == magnitude);
            }
        },
        ExprModel::Variable(name) => {
            assert(w == name);
            lemma_no_function_token(s, i, name);
            assert(s[i] == name[0]);
            assert(is_letter(name[0]));
            assert(is_letter(s[i]));
            assert(!is_digit_char(s[i])) by {
                if (s[i] as u32) < 128 {
                } else {
                }
            }
            assert(s[i] != '-');
            lemma_scan_letters_window(s, i, name);
            assert(s.subrange(i, j) == name);
        },
        ExprModel::Exponential(op) => {
            let rop = spec_render(*op);
            assert(w == "exp("@ + rop + ")"@);
            lemma_sub_at_concat(s, i, "exp("@ + rop, ")"@);
            lemma_sub_at_concat(s, i, "exp("@, rop);
            assert(has_token(s, i, "exp("@));
            lemma_render_head(*op);
            lemma_token_chars();
            assert(skip_ws(s, i + 4) == i + 4) by {
                lemma_sub_at_index(s, i + 4, rop);
                assert(s[i + 4] == rop[0]);
            }
            let m = i + 4 + rop.len();
            assert(s[m] == ')') by {
                lemma_sub_at_index(s, m, ")"@);
                assert(s[m] == ")"@[0]);
            }
            lemma_parse_of_render(*op, s, i + 4);
            lemma_skip_ws(s, m);
            assert(skip_ws(s, m) == m);
            assert(m + 1 == j);
        },
        ExprModel::Logarithm(op) => {
            let rop = spec_render(*op);
            assert(w == "ln("@ + rop + ")"@);
            lemma_sub_at_concat(s, i, "ln("@ + rop, ")"@);
            lemma_sub_at_concat(s, i, "ln("@, rop);
            assert(has_token(s, i, "ln("@));
            assert(!has_token(s, i, "exp("@)) by {
                lemma_sub_at_index(s, i, "ln("@);
                assert(s[i] == "ln("@[0]);
                if has_token(s, i, "exp("@) {
                    lemma_sub_at_index(s, i, "exp("@);
                    assert(s[i] == "exp("@[0]);
                }
            }
            assert(!has_token(s, i, "log("@)) by {
                lemma_sub_at_index(s, i, "ln("@);
                assert(s[i + 1] == "ln("@[1]);
                if has_token(s, i, "log("@) {
                    lemma_sub_at_index(s, i, "log("@);
                    assert(s[i + 1] == "log("@[1]);
                }
            }
            lemma_render_head(*op);
            lemma_token_chars();
            assert(skip_ws(s, i + 3) == i + 3) by {
                lemma_sub_at_index(s, i + 3, rop);
                assert(s[i + 3] == rop[0]);
            }
            let m = i + 3 + rop.len();
            assert(s[m] == ')') by {
                lemma_sub_at_index(s, m, ")"@);
                assert(s[m] == ")"@[0]);
            }
            lemma_parse_of_render(*op, s, i + 3);
            lemma_skip_ws(s, m);
            assert(skip_ws(s, m) == m);
            assert(m + 1 == j);
        },
        _ => {},
    }
}

/// A canonical tree rendered inside one pair of parentheses is recognized by
/// the primary level, whatever follows the closing mark.
#[verifier::rlimit(100)]
proof fn lemma_primary_of_wrapped(t: ParsedExpr, s: Seq<char>, i: int)
    requires
        is_canonical(t),
        names_ok(t),
        sub_at(s, i, "("@ + spec_render(t) + ")"@),
    ensures
        p_primary(s, i) == Some((t, i + spec_render(t).len() + 2)),
    decreases t, 4int, 0int,
{
    reveal_strlit("(");
    reveal_strlit(")");
    reveal_strlit("exp(");
    reveal_strlit("log(");
    reveal_strlit("ln(");
    let w = spec_render(t);
    lemma_token_chars();
    assert(("("@ + w) + ")"@ =~= "("@ + w + ")"@);
    lemma_sub_at_concat(s, i, "("@ + w, ")"@);
    lemma_sub_at_concat(s, i, "("@, w);
    lemma_sub_at_index(s, i, "("@);
    assert(s[i] == "("@[0]);
    assert(s[i] == '(');
    assert(!has_token(s, i, "exp("@)) by {
        if has_token(s, i, "exp("@) {
            lemma_sub_at_index(s, i, "exp("@);
            assert(s[i] == "exp("@[0]);
        }
    }
    assert(!has_token(s, i, "log("@)) by {
        if has_token(s, i, "log("@) {
            lemma_sub_at_index(s, i, "log("@);
            assert(s[i] == "log("@[0]);
        }
    }
    assert(!has_token(s, i, "ln("@)) by {
        if has_token(s, i, "ln("@) {
            lemma_sub_at_index(s, i, "ln("@);
            assert(s[i] == "ln("@[0]);
        }
    }
    assert(!is_digit_char('(') && !is_letter('(') && '(' != '-');
    lemma_render_head(t);
    assert(skip_ws(s, i + 1) == i + 1) by {
        lemma_sub_at_index(s, i + 1, w);
        assert(s[i + 1] == w[0]);
    }
    let m = i + 1 + w.len();
    lemma_token_chars();
    assert(s[m] == ')') by {
        lemma_sub_at_index(s, m, ")"@);
        assert(s[m] == ")"@[0]);
    }
    assert(stops(s, m));
    lemma_parse_of_render(t, s, i + 1);
    lemma_skip_ws(s, m);
    assert(skip_ws(s, m) == m);
}

/// Parse inverts render: a canonical tree with readable variable names,
/// rendered and parsed back, is returned unchanged.
pub proof fn lemma_parse_render_round_trip(t: ParsedExpr)
    requires
        is_canonical(t),
        names_ok(t),
    ensures
        spec_parse(spec_render(t)) == Some(t),
{
    let s = spec_render(t);
    lemma_render_head(t);
    lemma_skip_ws(s, 0);
    assert(skip_ws(s, 0) == 0) by {
        assert(!is_space(s[0]));
    }
    assert(sub_at(s, 0, s)) by {
        assert(s.subrange(0, s.len() as int) =~= s);
    }
    lemma_parse_of_render(t, s, 0);
    lemma_skip_ws(s, s.len() as int);
}

} // verus!
