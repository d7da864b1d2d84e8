use ruint::aliases::U256;
use signed_int::aliases::{I0, I1, I256};
use signed_int::errors::ParseSignedError;
use signed_int::sign::Sign;

#[test]
fn from_dec_str() {
    assert_eq!(I0::from_dec_str("0"), Ok(I0::zero()));
    assert_eq!(I1::from_dec_str("0"), Ok(I1::zero()));
    assert_eq!(I1::from_dec_str("-1"), Ok(I1::minus_one()));
    assert_eq!(I1::from_dec_str("1"), Err(ParseSignedError::IntegerOverflow));

    let min_abs = U256::from_limbs(I256::min_value().into_raw());
    let unsigned = U256::from_str_radix("3141592653589793", 10).unwrap();

    let value = I256::from_dec_str(&format!("-{unsigned}")).unwrap();
    assert_eq!(value.into_sign_and_abs(), (Sign::Negative, unsigned.into_limbs()));

    let value = I256::from_dec_str(&format!("{unsigned}")).unwrap();
    assert_eq!(value.into_sign_and_abs(), (Sign::Positive, unsigned.into_limbs()));

    let value = I256::from_dec_str(&format!("+{unsigned}")).unwrap();
    assert_eq!(value.into_sign_and_abs(), (Sign::Positive, unsigned.into_limbs()));

    let err = I256::from_dec_str("invalid string").unwrap_err();
    assert_eq!(err, ParseSignedError::Ruint(ruint::ParseError::InvalidDigit('i')));

    let err = I256::from_dec_str(&format!("1{}", U256::MAX)).unwrap_err();
    assert_eq!(err, ParseSignedError::IntegerOverflow);

    let err = I256::from_dec_str(&format!("-{}", U256::MAX)).unwrap_err();
    assert_eq!(err, ParseSignedError::IntegerOverflow);

    let value = I256::from_dec_str(&format!("-{}", min_abs)).unwrap();
    assert_eq!(value.into_sign_and_abs(), (Sign::Negative, min_abs.into_limbs()));

    let err = I256::from_dec_str(&format!("{}", min_abs)).unwrap_err();
    assert_eq!(err, ParseSignedError::IntegerOverflow);
}

#[test]
fn from_hex_str() {
    assert_eq!(I0::from_hex_str("0x0"), Ok(I0::zero()));
    assert_eq!(I1::from_hex_str("0x0"), Ok(I1::zero()));
    assert_eq!(I1::from_hex_str("-0x1"), Ok(I1::minus_one()));
    assert_eq!(I1::from_hex_str("0x1"), Err(ParseSignedError::IntegerOverflow));

    let min_abs = U256::from_limbs(I256::min_value().into_raw());
    let unsigned = U256::from_str_radix("3141592653589793", 10).unwrap();

    let value = I256::from_hex_str(&format!("-{unsigned:x}")).unwrap();
    assert_eq!(value.into_sign_and_abs(), (Sign::Negative, unsigned.into_limbs()));

    let value = I256::from_hex_str(&format!("-0x{unsigned:x}")).unwrap();
    assert_eq!(value.into_sign_and_abs(), (Sign::Negative, unsigned.into_limbs()));

    let value = I256::from_hex_str(&format!("{unsigned:x}")).unwrap();
    assert_eq!(value.into_sign_and_abs(), (Sign::Positive, unsigned.into_limbs()));

    let value = I256::from_hex_str(&format!("0x{unsigned:x}")).unwrap();
    assert_eq!(value.into_sign_and_abs(), (Sign::Positive, unsigned.into_limbs()));

    let value = I256::from_hex_str(&format!("+0x{unsigned:x}")).unwrap();
    assert_eq!(value.into_sign_and_abs(), (Sign::Positive, unsigned.into_limbs()));

    let err = I256::from_hex_str("invalid string").unwrap_err();
    assert!(matches!(err, ParseSignedError::Ruint(_)));

    let err = I256::from_hex_str(&format!("1{:x}", U256::MAX)).unwrap_err();
    assert!(matches!(err, ParseSignedError::IntegerOverflow));

    let err = I256::from_hex_str(&format!("-{:x}", U256::MAX)).unwrap_err();
    assert!(matches!(err, ParseSignedError::IntegerOverflow));

    let value = I256::from_hex_str(&format!("-{:x}", min_abs)).unwrap();
    assert_eq!(value.into_sign_and_abs(), (Sign::Negative, min_abs.into_limbs()));

    let err = I256::from_hex_str(&format!("{:x}", min_abs)).unwrap_err();
    assert!(matches!(err, ParseSignedError::IntegerOverflow));
}

#[test]
fn parse() {
    assert_eq!("0x0".parse::<I0>(), Ok(I0::zero()));
    assert_eq!("+0x0".parse::<I0>(), Ok(I0::zero()));
    assert_eq!("0x0".parse::<I1>(), Ok(I1::zero()));
    assert_eq!("+0x0".parse::<I1>(), Ok(I1::zero()));
    assert_eq!("-0x1".parse::<I1>(), Ok(I1::minus_one()));
    assert_eq!("0x1".parse::<I1>(), Err(ParseSignedError::IntegerOverflow));

    assert_eq!("0".parse::<I0>(), Ok(I0::zero()));
    assert_eq!("+0".parse::<I0>(), Ok(I0::zero()));
    assert_eq!("0".parse::<I1>(), Ok(I1::zero()));
    assert_eq!("+0".parse::<I1>(), Ok(I1::zero()));
    assert_eq!("-1".parse::<I1>(), Ok(I1::minus_one()));
    assert_eq!("1".parse::<I1>(), Err(ParseSignedError::IntegerOverflow));
}

#[test]
fn parse_underscores_and_ambiguity() {
    assert_eq!(
        "1_000_000".parse::<I256>(),
        Ok(I256::unchecked_from(1_000_000))
    );
    // no hex digits beyond the decimal alphabet, so decimal wins
    assert_eq!("1113".parse::<I256>(), Ok(I256::unchecked_from(1113)));
    // hex-only digits fall back to the hexadecimal parser
    assert_eq!("deadbeef".parse::<I256>(), Ok(I256::unchecked_from(0xdeadbeef)));
    assert!("^31".parse::<I256>().is_err());
    // a digit string longer than 64 hex characters is rejected early
    let long = "0x10000000000000000000000000000000000000000000000000000000000000000";
    assert_eq!(I256::from_hex_str(long), Err(ParseSignedError::IntegerOverflow));
}

#[test]
fn round_trips() {
    let samples = [
        "0",
        "1",
        "-1",
        "42",
        "-39614081257132168796771975168",
        "57896044618658097711785492504343953926634992332820282019728792003956564819967",
        "-57896044618658097711785492504343953926634992332820282019728792003956564819968",
    ];
    for s in samples {
        let v = I256::from_dec_str(s).unwrap();
        assert_eq!(I256::from_dec_str(&v.to_dec_string()), Ok(v));
        assert_eq!(I256::from_hex_str(&v.to_hex_string()), Ok(v));
        assert_eq!(v.to_dec_string(), s);
    }
    for v in [I0::zero()] {
        assert_eq!(I0::from_dec_str(&v.to_dec_string()), Ok(v));
        assert_eq!(I0::from_hex_str(&v.to_hex_string()), Ok(v));
    }
    for v in [I1::zero(), I1::minus_one()] {
        assert_eq!(I1::from_dec_str(&v.to_dec_string()), Ok(v));
        assert_eq!(I1::from_hex_str(&v.to_hex_string()), Ok(v));
    }
}
