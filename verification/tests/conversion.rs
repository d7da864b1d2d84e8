use ruint::aliases::{U0, U1, U128, U256};
use signed_int::aliases::{I0, I1, I128, I256, I96};
use signed_int::errors::BigIntConversionError;

type U96 = ruint::Uint<96, 2>;

#[test]
fn std_num_conversion() {
    assert_eq!(I256::try_from_i128(-42).unwrap().to_dec_string(), "-42");
    assert_eq!(I256::try_from_i128(42).unwrap().to_dec_string(), "42");
    assert_eq!(I256::try_from_u128(42).unwrap().to_dec_string(), "42");
    assert_eq!(I96::try_from_i128(-42).unwrap().to_dec_string(), "-42");
    assert_eq!(I96::try_from_i128(42).unwrap().to_dec_string(), "42");
    assert_eq!(I96::try_from_u128(42).unwrap().to_dec_string(), "42");

    assert_eq!(
        I256::try_from_i128(i64::MAX as i128).unwrap().to_dec_string(),
        i64::MAX.to_string()
    );
    assert_eq!(
        I256::try_from_i128(i64::MIN as i128).unwrap().to_dec_string(),
        i64::MIN.to_string()
    );
    assert_eq!(
        I128::try_from_i128(i128::MAX).unwrap().to_dec_string(),
        i128::MAX.to_string()
    );
    assert_eq!(
        I128::try_from_i128(i128::MIN).unwrap().to_dec_string(),
        i128::MIN.to_string()
    );
    assert_eq!(I96::try_from_i128(i128::MAX), Err(BigIntConversionError));
    assert_eq!(I96::try_from_u128(u128::MAX), Err(BigIntConversionError));

    assert_eq!(I256::try_from_i128(-42).unwrap().try_to_i128(), Ok(-42));
    assert_eq!(I256::try_from_i128(42).unwrap().try_to_u128(), Ok(42));
    assert_eq!(I256::minus_one().try_to_u128(), Err(BigIntConversionError));
    assert_eq!(I256::max_value().try_to_i128(), Err(BigIntConversionError));
    assert_eq!(I128::min_value().try_to_i128(), Ok(i128::MIN));
    assert_eq!(I128::max_value().try_to_i128(), Ok(i128::MAX));

    // edge cases
    assert_eq!(I0::unchecked_from(0), I0::zero());
    assert_eq!(I0::try_from_u128(1), Err(BigIntConversionError));
    assert_eq!(I0::try_from_i128(1), Err(BigIntConversionError));
    assert_eq!(I1::unchecked_from(0), I1::zero());
    assert_eq!(I1::try_from_u128(1), Err(BigIntConversionError));
    assert_eq!(I1::try_from_i128(1), Err(BigIntConversionError));
    assert_eq!(I1::try_from_i128(-1), Ok(I1::minus_one()));
}

#[test]
fn twos_complement() {
    assert_eq!(
        I256::try_from_i128(i64::MAX as i128).unwrap().twos_complement(),
        U256::from(i64::MAX).into_limbs()
    );
    assert_eq!(
        I256::try_from_i128(i64::MIN as i128).unwrap().twos_complement(),
        U256::from(i64::MIN.unsigned_abs()).into_limbs()
    );
    assert_eq!(
        I96::try_from_i128(i64::MIN as i128).unwrap().twos_complement(),
        U96::from(i64::MIN.unsigned_abs()).into_limbs()
    );
    assert_eq!(
        I256::try_from_i128(0).unwrap().twos_complement(),
        U256::ZERO.into_limbs()
    );
    assert_eq!(
        I128::try_from_i128(i128::MIN).unwrap().twos_complement(),
        U128::from(i128::MIN.unsigned_abs()).into_limbs()
    );

    let z = I0::zero();
    let o = I1::zero();
    let m = I1::minus_one();
    assert_eq!(z.twos_complement(), U0::ZERO.into_limbs());
    assert_eq!(o.twos_complement(), U1::ZERO.into_limbs());
    assert_eq!(m.twos_complement(), U1::from(1u8).into_limbs());
}

#[test]
fn limb_round_trip() {
    let x = I256::from_dec_str("-39614081257132168796771975168").unwrap();
    let limbs = x.into_limbs();
    assert_eq!(I256::from_limbs(limbs), x);
    assert_eq!(I256::from_raw(x.into_raw()), x);
    assert_eq!(x.as_limbs(), &limbs);
}

#[test]
fn min_at_96_bits() {
    // the 96-bit most negative value, parsed from its decimal rendering
    let parsed = I96::from_dec_str("-39614081257132168796771975168").unwrap();
    assert_eq!(parsed, I96::min_value());
}
