use vstd::prelude::*;
use vstd::arithmetic::power::pow;
use crate::arith::{divides, gcd_int};

verus! {

/// Base of the limb representation: each limb holds 32 bits.
pub open spec fn limb_base() -> nat {
    0x1_0000_0000
}

/// Value of a little-endian limb sequence: `s[0] + 2^32 * (s[1] + 2^32 * ...)`.
pub open spec fn limbs_value(s: Seq<u32>) -> nat
    decreases s.len(),
{
    if s.len() == 0 {
        0
    } else {
        s[0] as nat + limb_base() * limbs_value(s.skip(1))
    }
}

/// An arbitrary-precision signed integer: a sign and a little-endian
/// magnitude in base `2^32`.
///
/// The representation is canonical: the magnitude has no leading zero limb,
/// and zero is never marked negative. Canonical representations are what the
/// arithmetic here produces, and they make structural equality coincide with
/// numeric equality.
#[derive(Debug, PartialEq, Eq)]
pub struct Bignum {
    pub negative: bool,
    pub limbs: Vec<u32>,
}

impl Bignum {
    /// The canonical-representation invariant.
    pub open spec fn wf(&self) -> bool {
        &&& (self.limbs@.len() > 0 ==> self.limbs@.last() != 0)
        &&& (self.negative ==> self.limbs@.len() > 0)
    }

    /// The integer this value stands for.
    pub open spec fn value(&self) -> int {
        if self.negative {
            -(limbs_value(self.limbs@) as int)
        } else {
            limbs_value(self.limbs@) as int
        }
    }
}

impl View for Bignum {
    type V = int;

    open spec fn view(&self) -> int {
        self.value()
    }
}

/// A limb sequence whose last limb is nonzero has a nonzero value, and any
/// sequence of two or more such limbs reaches at least `2^32`.
pub proof fn lemma_limbs_value_last_nonzero(s: Seq<u32>)
    requires
        s.len() > 0,
        s.last() != 0,
    ensures
        limbs_value(s) >= 1,
        s.len() >= 2 ==> limbs_value(s) >= limb_base(),
    decreases s.len(),
{
    if s.len() == 1 {
        assert(limbs_value(s.skip(1)) == 0);
    } else {
        let t = s.skip(1);
        assert(t.last() == s.last());
        lemma_limbs_value_last_nonzero(t);
    }
}

/// A single-limb sequence is worth exactly its limb.
pub proof fn lemma_limbs_value_single(s: Seq<u32>)
    requires
        s.len() == 1,
    ensures
        limbs_value(s) == s[0],
{
    assert(limbs_value(s.skip(1)) == 0);
}

impl Bignum {
    /// The zero value.
    pub fn zero() -> (r: Bignum)
        ensures
            r.wf(),
            r@ == 0,
    {
        Bignum { negative: false, limbs: Vec::new() }
    }

    /// The value of a machine word.
    pub fn from_u32(v: u32) -> (r: Bignum)
        ensures
            r.wf(),
            r@ == v as int,
    {
        let mut limbs: Vec<u32> = Vec::new();
        if v != 0 {
            limbs.push(v);
        }
        let r = Bignum { negative: false, limbs };
        proof {
            if v != 0 {
                lemma_limbs_value_single(r.limbs@);
            }
        }
        r
    }

    /// The value of a signed machine word.
    pub fn from_i64(v: i64) -> (r: Bignum)
        ensures
            r.wf(),
            r@ == v as int,
    {
        let negative = v < 0;
        let magnitude: u64 = if v < 0 {
            (-(v as i128)) as u64
        } else {
            v as u64
        };
        let lo: u32 = (magnitude % 0x1_0000_0000) as u32;
        let hi: u32 = (magnitude / 0x1_0000_0000) as u32;
        assert(magnitude == lo as int + 0x1_0000_0000int * (hi as int));
        let mut limbs: Vec<u32> = Vec::new();
        if lo != 0 || hi != 0 {
            limbs.push(lo);
        }
        if hi != 0 {
            limbs.push(hi);
        }
        let r = Bignum { negative, limbs };
        proof {
            if hi != 0 {
                assert(r.limbs@.skip(1) =~= seq![hi]);
                lemma_limbs_value_single(r.limbs@.skip(1));
                assert(limbs_value(r.limbs@) == lo + limb_base() * hi);
            } else if lo != 0 {
                lemma_limbs_value_single(r.limbs@);
            }
        }
        r
    }

    /// Numeric equality, decided structurally on the canonical representation.
    pub fn same_value(&self, other: &Bignum) -> (r: bool)
        requires
            self.wf(),
            other.wf(),
        ensures
            r <==> self@ == other@,
    {
        proof {
            lemma_canonical_value_eq(*self, *other);
        }
        if self.negative != other.negative {
            return false;
        }
        if self.limbs.len() != other.limbs.len() {
            return false;
        }
        let n = self.limbs.len();
        let mut i: usize = 0;
        while i < n
            invariant
                self.wf(),
                other.wf(),
                n == self.limbs@.len(),
                n == other.limbs@.len(),
                0 <= i <= n,
                forall|j: int| 0 <= j < i ==> self.limbs@[j] == other.limbs@[j],
            decreases n - i,
        {
            if self.limbs[i] != other.limbs[i] {
                proof {
                    lemma_canonical_value_eq(*self, *other);
                }
                return false;
            }
            i += 1;
        }
        proof {
            assert(self.limbs@ =~= other.limbs@);
        }
        true
    }

    /// Whether the value is zero.
    pub fn is_zero(&self) -> (r: bool)
        requires
            self.wf(),
        ensures
            r <==> self@ == 0,
    {
        proof {
            if self.limbs@.len() > 0 {
                lemma_limbs_value_last_nonzero(self.limbs@);
            }
        }
        self.limbs.len() == 0
    }

    /// Whether the value is one.
    pub fn is_one(&self) -> (r: bool)
        requires
            self.wf(),
        ensures
            r <==> self@ == 1,
    {
        proof {
            if self.limbs@.len() > 0 {
                lemma_limbs_value_last_nonzero(self.limbs@);
                if self.limbs@.len() == 1 {
                    lemma_limbs_value_single(self.limbs@);
                }
            }
        }
        !self.negative && self.limbs.len() == 1 && self.limbs[0] == 1
    }

    /// If the value lies in `0 ..= u32::MAX`, that machine word.
    pub fn as_u32(&self) -> (r: Option<u32>)
        requires
            self.wf(),
        ensures
            match r {
                Some(v) => self@ == v as int,
                None => !(0 <= self@ <= u32::MAX),
            },
    {
        proof {
            if self.limbs@.len() > 0 {
                lemma_limbs_value_last_nonzero(self.limbs@);
                if self.limbs@.len() == 1 {
                    lemma_limbs_value_single(self.limbs@);
                }
            }
        }
        if self.negative {
            None
        } else if self.limbs.len() == 0 {
            Some(0)
        } else if self.limbs.len() == 1 {
            Some(self.limbs[0])
        } else {
            None
        }
    }

    /// A copy of this value.
    pub fn duplicate(&self) -> (r: Bignum)
        ensures
            r.negative == self.negative,
            r.limbs@ == self.limbs@,
            r@ == self@,
            r.wf() == self.wf(),
    {
        let mut limbs: Vec<u32> = Vec::new();
        let n = self.limbs.len();
        let mut i: usize = 0;
        while i < n
            invariant
                n == self.limbs@.len(),
                0 <= i <= n,
                limbs@ =~= self.limbs@.take(i as int),
            decreases n - i,
        {
            limbs.push(self.limbs[i]);
            i += 1;
        }
        proof {
            assert(limbs@ =~= self.limbs@);
        }
        Bignum { negative: self.negative, limbs }
    }
}

/// Canonical representations are unique: two well-formed values denote the
/// same integer exactly when their fields agree.
pub proof fn lemma_canonical_value_eq(a: Bignum, b: Bignum)
    requires
        a.wf(),
        b.wf(),
    ensures
        (a@ == b@) <==> (a.negative == b.negative && a.limbs@ == b.limbs@),
{
    if a.limbs@.len() > 0 {
        lemma_limbs_value_last_nonzero(a.limbs@);
    }
    if b.limbs@.len() > 0 {
        lemma_limbs_value_last_nonzero(b.limbs@);
    }
    if a@ == b@ {
        lemma_limbs_value_injective(a.limbs@, b.limbs@);
    }
}

/// Limb sequences without leading zeros are determined by their value.
proof fn lemma_limbs_value_injective(s: Seq<u32>, t: Seq<u32>)
    requires
        s.len() > 0 ==> s.last() != 0,
        t.len() > 0 ==> t.last() != 0,
        limbs_value(s) == limbs_value(t),
    ensures
        s =~= t,
    decreases s.len(),
{
    if s.len() == 0 {
        if t.len() > 0 {
            lemma_limbs_value_last_nonzero(t);
        }
    } else if t.len() == 0 {
        lemma_limbs_value_last_nonzero(s);
    } else {
        let s1 = s.skip(1);
        let t1 = t.skip(1);
        assert(s[0] + limb_base() * limbs_value(s1) == t[0] + limb_base() * limbs_value(t1));
        assert(s[0] == t[0] && limbs_value(s1) == limbs_value(t1)) by (nonlinear_arith)
            requires
                s[0] + 0x1_0000_0000 * limbs_value(s1) == t[0] + 0x1_0000_0000 * limbs_value(t1),
                0 <= s[0] < 0x1_0000_0000,
                0 <= t[0] < 0x1_0000_0000,
                limbs_value(s1) >= 0,
                limbs_value(t1) >= 0,
        ;
        if s1.len() > 0 {
            assert(s1.last() == s.last());
        }
        if t1.len() > 0 {
            assert(t1.last() == t.last());
        }
        lemma_limbs_value_injective(s1, t1);
        assert(s =~= seq![s[0]] + s1);
        assert(t =~= seq![t[0]] + t1);
    }
}

/// Decimal digit character for a value in `0 ..= 9`.
pub open spec fn digit_char(d: int) -> char {
    if d == 0 {
        '0'
    } else if d == 1 {
        '1'
    } else if d == 2 {
        '2'
    } else if d == 3 {
        '3'
    } else if d == 4 {
        '4'
    } else if d == 5 {
        '5'
    } else if d == 6 {
        '6'
    } else if d == 7 {
        '7'
    } else if d == 8 {
        '8'
    } else {
        '9'
    }
}

/// The decimal digits of a natural number, most significant first.
pub open spec fn dec_digits_of(n: nat) -> Seq<char>
    decreases n,
{
    if n < 10 {
        seq![digit_char(n as int)]
    } else {
        dec_digits_of(n / 10) + seq![digit_char((n % 10) as int)]
    }
}

/// The decimal rendering of an integer: a minus sign for negative values,
/// then the digits of the magnitude.
pub open spec fn dec_str_of(v: int) -> Seq<char> {
    if v < 0 {
        seq!['-'] + dec_digits_of((-v) as nat)
    } else {
        dec_digits_of(v as nat)
    }
}

/// Whether a character is a decimal digit.
pub open spec fn is_digit_char(c: char) -> bool {
    48 <= c as u32 <= 57
}

/// The value of a decimal digit character.
pub open spec fn digit_val(c: char) -> int {
    c as u32 - 48
}

/// The value of a sequence of decimal digit characters.
pub open spec fn dec_val_of(s: Seq<char>) -> int
    decreases s.len(),
{
    if s.len() == 0 {
        0
    } else {
        dec_val_of(s.drop_last()) * 10 + digit_val(s.last())
    }
}

/// Relies on num-bigint: `BigInt + BigInt` is integer addition, and
/// `to_u32_digits` returns the canonical sign and little-endian magnitude.
#[verifier::external_body]
pub fn big_add(a: &Bignum, b: &Bignum) -> (r: Bignum)
    ensures
        r.wf(),
        r@ == a@ + b@,
{
    let sa = if a.negative { num_bigint::Sign::Minus } else { num_bigint::Sign::Plus };
    let sb = if b.negative { num_bigint::Sign::Minus } else { num_bigint::Sign::Plus };
    let x = num_bigint::BigInt::from_slice(sa, &a.limbs);
    let y = num_bigint::BigInt::from_slice(sb, &b.limbs);
    let (s, limbs) = (x + y).to_u32_digits();
    Bignum { negative: s == num_bigint::Sign::Minus, limbs }
}

/// Relies on num-bigint: `BigInt * BigInt` is integer multiplication.
#[verifier::external_body]
pub fn big_mul(a: &Bignum, b: &Bignum) -> (r: Bignum)
    ensures
        r.wf(),
        r@ == a@ * b@,
{
    let sa = if a.negative { num_bigint::Sign::Minus } else { num_bigint::Sign::Plus };
    let sb = if b.negative { num_bigint::Sign::Minus } else { num_bigint::Sign::Plus };
    let x = num_bigint::BigInt::from_slice(sa, &a.limbs);
    let y = num_bigint::BigInt::from_slice(sb, &b.limbs);
    let (s, limbs) = (x * y).to_u32_digits();
    Bignum { negative: s == num_bigint::Sign::Minus, limbs }
}

/// Relies on num-integer's `Integer::gcd` for `BigInt`: the greatest common
/// divisor, always non-negative; `gcd_int` states the value it computes.
#[verifier::external_body]
pub fn big_gcd(a: &Bignum, b: &Bignum) -> (r: Bignum)
    ensures
        r.wf(),
        r@ == gcd_int(a@, b@) as int,
{
    let sa = if a.negative { num_bigint::Sign::Minus } else { num_bigint::Sign::Plus };
    let sb = if b.negative { num_bigint::Sign::Minus } else { num_bigint::Sign::Plus };
    let x = num_bigint::BigInt::from_slice(sa, &a.limbs);
    let y = num_bigint::BigInt::from_slice(sb, &b.limbs);
    let (s, limbs) = num_integer::Integer::gcd(&x, &y).to_u32_digits();
    Bignum { negative: s == num_bigint::Sign::Minus, limbs }
}

/// Relies on num-bigint: `BigInt / BigInt` divides exactly when the divisor
/// divides the dividend, which the caller must ensure.
#[verifier::external_body]
pub fn big_div_exact(a: &Bignum, b: &Bignum) -> (r: Bignum)
    requires
        b@ != 0,
        divides(b@, a@),
    ensures
        r.wf(),
        r@ * b@ == a@,
{
    let sa = if a.negative { num_bigint::Sign::Minus } else { num_bigint::Sign::Plus };
    let sb = if b.negative { num_bigint::Sign::Minus } else { num_bigint::Sign::Plus };
    let x = num_bigint::BigInt::from_slice(sa, &a.limbs);
    let y = num_bigint::BigInt::from_slice(sb, &b.limbs);
    let (s, limbs) = (x / y).to_u32_digits();
    Bignum { negative: s == num_bigint::Sign::Minus, limbs }
}

/// Relies on num-bigint's `BigInt::pow`: exact exponentiation by a machine
/// word, with an exponent of zero giving one.
#[verifier::external_body]
pub fn big_pow(base: &Bignum, exponent: u32) -> (r: Bignum)
    ensures
        r.wf(),
        r@ == pow(base@, exponent as nat),
{
    let sa = if base.negative { num_bigint::Sign::Minus } else { num_bigint::Sign::Plus };
    let x = num_bigint::BigInt::from_slice(sa, &base.limbs);
    let (s, limbs) = x.pow(exponent).to_u32_digits();
    Bignum { negative: s == num_bigint::Sign::Minus, limbs }
}

/// Relies on num-bigint's `to_str_radix` in base ten: a minus sign for
/// negative values, then the decimal digits of the magnitude, no leading
/// zeros, a single zero digit for zero.
#[verifier::external_body]
pub fn big_to_decimal(a: &Bignum) -> (r: String)
    ensures
        r@ == dec_str_of(a@),
{
    let sa = if a.negative { num_bigint::Sign::Minus } else { num_bigint::Sign::Plus };
    let x = num_bigint::BigInt::from_slice(sa, &a.limbs);
    x.to_str_radix(10)
}

} // verus!
