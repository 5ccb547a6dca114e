use vstd::prelude::*;
use vstd::arithmetic::div_mod::{
    lemma_fundamental_div_mod, lemma_div_multiples_vanish,
};

verus! {

/// `d` divides `a`.
pub open spec fn divides(d: int, a: int) -> bool {
    exists|k: int| a == #[trigger] (d * k)
}

/// Euclid's greatest common divisor of two naturals.
pub open spec fn gcd_nat(a: nat, b: nat) -> nat
    decreases b,
{
    if b == 0 {
        a
    } else {
        gcd_nat(b, a % b)
    }
}

/// Magnitude of an integer.
pub open spec fn abs_int(a: int) -> nat {
    if a < 0 {
        (-a) as nat
    } else {
        a as nat
    }
}

/// Greatest common divisor of two integers, always non-negative.
pub open spec fn gcd_int(a: int, b: int) -> nat {
    gcd_nat(abs_int(a), abs_int(b))
}

/// The gcd divides both of its arguments.
pub proof fn lemma_gcd_divides(a: nat, b: nat)
    ensures
        divides(gcd_nat(a, b) as int, a as int),
        divides(gcd_nat(a, b) as int, b as int),
    decreases b,
{
    let g = gcd_nat(a, b) as int;
    if b == 0 {
        assert(a as int == g * 1);
        assert(0int == g * 0);
    } else {
        lemma_gcd_divides(b, a % b);
        let k1 = choose|k: int| b as int == #[trigger] (g * k);
        let k2 = choose|k: int| (a % b) as int == #[trigger] (g * k);
        lemma_fundamental_div_mod(a as int, b as int);
        let q = a as int / b as int;
        assert(a as int == (g * k1) * q + g * k2);
        assert((g * k1) * q + g * k2 == g * (k1 * q + k2)) by (nonlinear_arith);
        assert(a as int == g * (k1 * q + k2));
    }
}

/// Any common divisor of the arguments divides the gcd.
pub proof fn lemma_divides_gcd(a: nat, b: nat, c: int)
    requires
        divides(c, a as int),
        divides(c, b as int),
    ensures
        divides(c, gcd_nat(a, b) as int),
    decreases b,
{
    if b == 0 {
    } else {
        let j = choose|k: int| a as int == #[trigger] (c * k);
        let k = choose|k: int| b as int == #[trigger] (c * k);
        lemma_fundamental_div_mod(a as int, b as int);
        let q = a as int / b as int;
        assert((a % b) as int == c * j - (c * k) * q);
        assert(c * j - (c * k) * q == c * (j - k * q)) by (nonlinear_arith);
        assert((a % b) as int == c * (j - k * q));
        lemma_divides_gcd(b, a % b, c);
    }
}

/// The gcd of two naturals, not both zero, is positive.
pub proof fn lemma_gcd_pos(a: nat, b: nat)
    requires
        a > 0 || b > 0,
    ensures
        gcd_nat(a, b) > 0,
    decreases b,
{
    if b == 0 {
    } else {
        lemma_gcd_pos(b, a % b);
    }
}

/// `gcd(a, 0) == a` and gcd is unchanged by swapping signs of its arguments.
pub proof fn lemma_divides_abs(d: int, a: int)
    requires
        divides(d, abs_int(a) as int),
    ensures
        divides(d, a),
{
    let k = choose|k: int| abs_int(a) as int == #[trigger] (d * k);
    if a < 0 {
        assert(a == d * (-k)) by (nonlinear_arith)
            requires
                -a == d * k,
        ;
    }
}

/// Dividing two integers, not both zero, by their gcd leaves an exact
/// quotient pair that is coprime.
pub proof fn lemma_quotient_reduction(a: int, b: int)
    requires
        !(a == 0 && b == 0),
    ensures
        gcd_int(a, b) >= 1,
        a == gcd_int(a, b) * (a / gcd_int(a, b) as int),
        b == gcd_int(a, b) * (b / gcd_int(a, b) as int),
        gcd_int(a / gcd_int(a, b) as int, b / gcd_int(a, b) as int) == 1,
{
    let g = gcd_int(a, b) as int;
    lemma_gcd_pos(abs_int(a), abs_int(b));
    lemma_gcd_divides(abs_int(a), abs_int(b));
    lemma_divides_abs(g, a);
    lemma_divides_abs(g, b);
    let ka = choose|k: int| a == #[trigger] (g * k);
    let kb = choose|k: int| b == #[trigger] (g * k);
    lemma_div_multiples_vanish(ka, g);
    lemma_div_multiples_vanish(kb, g);
    assert(a / g == ka);
    assert(b / g == kb);
    // Coprimality of the quotients.
    let h = gcd_int(ka, kb) as int;
    if abs_int(ka) == 0 && abs_int(kb) == 0 {
        assert(a == g * 0 && b == g * 0) by (nonlinear_arith)
            requires
                a == g * ka,
                b == g * kb,
                ka == 0,
                kb == 0,
        ;
    }
    lemma_gcd_pos(abs_int(ka), abs_int(kb));
    lemma_gcd_divides(abs_int(ka), abs_int(kb));
    lemma_divides_abs(h, ka);
    lemma_divides_abs(h, kb);
    let ja = choose|k: int| ka == #[trigger] (h * k);
    let jb = choose|k: int| kb == #[trigger] (h * k);
    assert(abs_int(a) as int == (g * h) * (if a < 0 { -ja } else { ja })) by (nonlinear_arith)
        requires
            a == g * ka,
            ka == h * ja,
            abs_int(a) as int == if a < 0 { -a } else { a },
    ;
    assert(abs_int(b) as int == (g * h) * (if b < 0 { -jb } else { jb })) by (nonlinear_arith)
        requires
            b == g * kb,
            kb == h * jb,
            abs_int(b) as int == if b < 0 { -b } else { b },
    ;
    assert(divides(g * h, abs_int(a) as int));
    assert(divides(g * h, abs_int(b) as int));
    lemma_divides_gcd(abs_int(a), abs_int(b), g * h);
    let m = choose|k: int| g == #[trigger] ((g * h) * k);
    assert(1int == h * m) by (nonlinear_arith)
        requires
            g == (g * h) * m,
            g >= 1,
    ;
    assert(h == 1) by (nonlinear_arith)
        requires
            1int == h * m,
            h >= 1,
    ;
}

/// The gcd of anything and zero is its magnitude; in particular a pair with
/// gcd one and a zero member pins the other to a unit. Reducing by a gcd of
/// one changes nothing.
pub proof fn lemma_gcd_one_fixed(a: int, b: int)
    requires
        gcd_int(a, b) == 1,
    ensures
        a / 1int == a,
        b / 1int == b,
{
    lemma_div_multiples_vanish(a, 1);
    lemma_div_multiples_vanish(b, 1);
}

} // verus!
