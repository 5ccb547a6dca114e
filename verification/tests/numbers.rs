use calculus::bignum::Bignum;

#[test]
fn small_values_round_trip_through_limbs() {
    assert_eq!(Bignum::from_i64(0), Bignum::zero());
    assert_eq!(Bignum::from_i64(7), Bignum::from_u32(7));
    assert!(Bignum::from_i64(-3).negative);
}

#[test]
fn same_value_compares_numerically() {
    let a = Bignum::from_i64(4294967296);
    let b = Bignum::from_i64(4294967296);
    let c = Bignum::from_i64(-4294967296);
    assert!(a.same_value(&b));
    assert!(!a.same_value(&c));
    assert!(!a.same_value(&Bignum::zero()));
}

#[test]
fn decimal_rendering_of_wide_values() {
    let a = Bignum::from_i64(-112500000000);
    assert_eq!(big_text(&a), "-112500000000");
}

fn big_text(n: &Bignum) -> String {
    calculus::bignum::big_to_decimal(n)
}
