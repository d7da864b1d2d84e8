use signed_int::aliases::{I0, I1, I256};

#[test]
fn exponentiation() {
    assert_eq!(
        I256::unchecked_from(1000).saturating_pow(1000),
        I256::max_value()
    );
    assert_eq!(
        I256::unchecked_from(-1000).saturating_pow(1001),
        I256::min_value()
    );

    assert_eq!(
        I256::unchecked_from(2).pow(64),
        I256::unchecked_from((1u128 << 64) as i128)
    );
    assert_eq!(
        I256::unchecked_from(-2).pow(63),
        I256::unchecked_from(i64::MIN as i128)
    );

    assert_eq!(I256::zero().pow(42), I256::zero());
    assert_eq!(I256::exp10(18).to_dec_string(), "1000000000000000000");

    let z = I0::zero();
    let o = I1::zero();
    let m = I1::minus_one();
    assert_eq!(z.wrapping_pow(0), z);
    assert_eq!(o.overflowing_pow(0), (m, true));
    assert_eq!(o.overflowing_pow(1), (o, false));
    assert_eq!(m.overflowing_pow(1), (m, false));
    assert_eq!(m.overflowing_pow(0), (m, true));
}

#[test]
fn pow_edges() {
    // exact powers and their overflow reports
    assert_eq!(I256::one().checked_pow(100000), Some(I256::one()));
    assert_eq!(
        I256::minus_one().checked_pow(101),
        Some(I256::minus_one())
    );
    assert_eq!(I256::minus_one().checked_pow(100), Some(I256::one()));
    assert_eq!(I256::unchecked_from(2).checked_pow(255), None);
    assert_eq!(
        I256::unchecked_from(-2).checked_pow(255),
        Some(I256::min_value())
    );
    assert_eq!(I256::unchecked_from(-2).checked_pow(256), None);
    assert_eq!(
        I256::unchecked_from(2).overflowing_pow(255),
        (I256::min_value(), true)
    );
    assert_eq!(I256::unchecked_from(3).wrapping_pow(2), I256::unchecked_from(9));
}
