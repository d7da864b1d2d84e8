use ruint::aliases::U256;
use signed_int::aliases::{I0, I1, I256};

#[test]
fn bit_shift() {
    assert_eq!(I256::one().wrapping_shl(255), I256::min_value());
    assert_eq!(I256::min_value().wrapping_shr(255), I256::one());

    let z = I0::zero();
    let o = I1::zero();
    let m = I1::minus_one();
    assert_eq!(z.wrapping_shl(1), z.wrapping_shr(1));
    assert_eq!(o.wrapping_shl(1), o.wrapping_shr(0));
    assert_eq!(m.wrapping_shl(1), o);
    assert_eq!(m.wrapping_shr(1), o);
}

#[test]
fn overflowing_shifts() {
    // a discarded one bit flags a left shift
    assert_eq!(I256::one().overflowing_shl(255), (I256::min_value(), false));
    assert_eq!(I256::one().overflowing_shl(256), (I256::zero(), true));
    assert_eq!(I256::zero().overflowing_shl(1000), (I256::zero(), false));
    assert_eq!(I256::one().checked_shl(256), None);
    // a logical right shift of a negative value differs from the
    // arithmetic one
    assert_eq!(I256::minus_one().overflowing_shr(1).1, true);
    assert_eq!(I256::minus_one().overflowing_shr(0).1, false);
    assert_eq!(I256::unchecked_from(4).overflowing_shr(2), (I256::one(), false));
    assert_eq!(I256::minus_one().checked_shr(1), None);
}

#[test]
fn arithmetic_shift_right() {
    let exp = 254usize;
    let shift = 253usize;

    let value = I256::from_raw(
        U256::from(2u8).pow(U256::from(exp)).into_limbs(),
    )
    .wrapping_neg();

    let expected_result = I256::from_raw((U256::MAX - U256::from(1u8)).into_limbs());
    assert_eq!(
        value.asr(shift),
        expected_result,
        "1011...1111 >> 253 was not 1111...1110"
    );

    let value = I256::minus_one();
    let expected_result = I256::minus_one();
    assert_eq!(value.asr(250), expected_result, "-1 >> any_amount was not -1");

    let value = I256::from_raw(
        U256::from(2u8).pow(U256::from(254u32)).into_limbs(),
    )
    .wrapping_neg();
    let expected_result = I256::minus_one();
    assert_eq!(
        value.asr(255),
        expected_result,
        "1011...1111 >> 255 was not -1"
    );

    let value = I256::from_raw(
        U256::from(2u8).pow(U256::from(254u32)).into_limbs(),
    )
    .wrapping_neg();
    let expected_result = I256::minus_one();
    assert_eq!(
        value.asr(1024),
        expected_result,
        "1011...1111 >> 1024 was not -1"
    );

    let value = I256::unchecked_from(1024);
    let expected_result = I256::unchecked_from(32);
    assert_eq!(value.asr(5), expected_result, "1024 >> 5 was not 32");

    let value = I256::max_value();
    let expected_result = I256::zero();
    assert_eq!(value.asr(255), expected_result, "I256::MAX >> 255 was not 0");

    let value = I256::from_raw(
        U256::from(2u8).pow(U256::from(exp)).into_limbs(),
    )
    .wrapping_neg();
    let expected_result = value;
    assert_eq!(value.asr(0), expected_result, "1011...1111 >> 0 was not 1011...111");

    let z = I0::zero();
    let o = I1::zero();
    let m = I1::minus_one();
    assert_eq!(z.asr(1), z);
    assert_eq!(o.asr(1), o);
    assert_eq!(m.asr(1), m);
    assert_eq!(m.asr(1000), m);
}

#[test]
fn arithmetic_shift_left() {
    let value = I256::minus_one();
    let expected_result = Some(value);
    assert_eq!(value.asl(0), expected_result, "-1 << 0 was not -1");

    let value = I256::minus_one();
    let expected_result = None;
    assert_eq!(
        value.asl(256),
        expected_result,
        "-1 << 256 did not overflow (result should be 0000...0000)"
    );

    let value = I256::minus_one();
    let expected_result = Some(I256::from_raw(
        U256::from(2u8).pow(U256::from(255u32)).into_limbs(),
    ));
    assert_eq!(
        value.asl(255),
        expected_result,
        "-1 << 255 was not 1000...0000"
    );

    let value = I256::unchecked_from(-1024);
    let expected_result = Some(I256::unchecked_from(-32768));
    assert_eq!(value.asl(5), expected_result, "-1024 << 5 was not -32768");

    let value = I256::unchecked_from(1024);
    let expected_result = Some(I256::unchecked_from(32768));
    assert_eq!(value.asl(5), expected_result, "1024 << 5 was not 32768");

    let value = I256::unchecked_from(1024);
    let expected_result = None;
    assert_eq!(
        value.asl(245),
        expected_result,
        "1024 << 245 did not overflow (result should be 1000...0000)"
    );

    let value = I256::zero();
    let expected_result = Some(value);
    assert_eq!(value.asl(1024), expected_result, "0 << anything was not 0");

    let z = I0::zero();
    let o = I1::zero();
    let m = I1::minus_one();
    assert_eq!(z.asl(1), Some(z));
    assert_eq!(o.asl(1), Some(o));
    assert_eq!(m.asl(1), None);
}

#[test]
fn wraparound_and_saturation_scenarios() {
    assert_eq!(
        I256::max_value().wrapping_add(I256::unchecked_from(1)),
        I256::min_value()
    );
    assert_eq!(I256::minus_one().asr(1000), I256::minus_one());
    assert_eq!(
        I256::unchecked_from(7).div_euclid(I256::unchecked_from(-4)),
        I256::unchecked_from(-1)
    );
    assert_eq!(
        I256::unchecked_from(-7).rem_euclid(I256::unchecked_from(4)),
        I256::unchecked_from(1)
    );
}

#[test]
fn bits() {
    assert_eq!(I256::unchecked_from(0b1000).bits(), 5);
    assert_eq!(I256::unchecked_from(-0b1000).bits(), 4);

    assert_eq!(I256::unchecked_from(i64::MAX as i128).bits(), 64);
    assert_eq!(I256::unchecked_from(i64::MIN as i128).bits(), 64);

    assert_eq!(I256::max_value().bits(), 256);
    assert_eq!(I256::min_value().bits(), 256);

    assert_eq!(I256::zero().bits(), 0);

    let z = I0::zero();
    let o = I1::zero();
    let m = I1::minus_one();
    assert_eq!(z.bits(), 0);
    assert_eq!(o.bits(), 0);
    assert_eq!(m.bits(), 1);
}
