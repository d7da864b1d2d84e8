use ruint::aliases::U256;
use signed_int::aliases::{I0, I1, I128, I160, I192, I256, I96};
use signed_int::sign::Sign;

type U96 = ruint::Uint<96, 2>;

#[test]
fn identities() {
    assert_eq!(I0::zero().to_dec_string(), "0");
    assert_eq!(I1::zero().to_dec_string(), "0");
    assert_eq!(I1::one().to_dec_string(), "-1");

    assert_eq!(I96::zero().to_dec_string(), "0");
    assert_eq!(I96::one().to_dec_string(), "1");
    assert_eq!(I96::minus_one().to_dec_string(), "-1");
    assert_eq!(
        I96::max_value().to_dec_string(),
        "39614081257132168796771975167"
    );
    assert_eq!(
        I96::min_value().to_dec_string(),
        "-39614081257132168796771975168"
    );

    assert_eq!(I128::zero().to_dec_string(), "0");
    assert_eq!(I128::one().to_dec_string(), "1");
    assert_eq!(I128::minus_one().to_dec_string(), "-1");
    assert_eq!(
        I128::max_value().to_dec_string(),
        "170141183460469231731687303715884105727"
    );
    assert_eq!(
        I128::min_value().to_dec_string(),
        "-170141183460469231731687303715884105728"
    );

    assert_eq!(I192::zero().to_dec_string(), "0");
    assert_eq!(I192::one().to_dec_string(), "1");
    assert_eq!(I192::minus_one().to_dec_string(), "-1");
    assert_eq!(
        I192::max_value().to_dec_string(),
        "3138550867693340381917894711603833208051177722232017256447"
    );
    assert_eq!(
        I192::min_value().to_dec_string(),
        "-3138550867693340381917894711603833208051177722232017256448"
    );

    assert_eq!(I256::zero().to_dec_string(), "0");
    assert_eq!(I256::one().to_dec_string(), "1");
    assert_eq!(I256::minus_one().to_dec_string(), "-1");
    assert_eq!(
        I256::max_value().to_dec_string(),
        "57896044618658097711785492504343953926634992332820282019728792003956564819967"
    );
    assert_eq!(
        I256::min_value().to_dec_string(),
        "-57896044618658097711785492504343953926634992332820282019728792003956564819968"
    );
}

#[test]
fn signs() {
    assert_eq!(I256::max_value().sign(), Sign::Positive);
    assert!(I256::max_value().is_positive());
    assert!(!I256::max_value().is_negative());
    assert!(!I256::max_value().is_zero());

    assert_eq!(I256::one().sign(), Sign::Positive);
    assert!(I256::one().is_positive());
    assert!(!I256::one().is_negative());
    assert!(!I256::one().is_zero());

    assert_eq!(I256::min_value().sign(), Sign::Negative);
    assert!(!I256::min_value().is_positive());
    assert!(I256::min_value().is_negative());
    assert!(!I256::min_value().is_zero());

    assert_eq!(I256::minus_one().sign(), Sign::Negative);
    assert!(!I256::minus_one().is_positive());
    assert!(I256::minus_one().is_negative());
    assert!(!I256::minus_one().is_zero());

    assert_eq!(I256::zero().sign(), Sign::Positive);
    assert!(!I256::zero().is_positive());
    assert!(!I256::zero().is_negative());
    assert!(I256::zero().is_zero());

    let z = I0::zero();
    let o = I1::zero();
    let m = I1::minus_one();
    assert_eq!(z.sign(), Sign::Positive);
    assert_eq!(o.sign(), Sign::Positive);
    assert_eq!(m.sign(), Sign::Negative);
}

#[test]
fn formatting() {
    let unsigned = U256::from_str_radix("3141592653589793", 10).unwrap();
    let positive = I256::from_dec_str("3141592653589793").unwrap();
    let negative = positive.checked_neg().unwrap();

    assert_eq!(positive.to_dec_string(), format!("{unsigned}"));
    assert_eq!(negative.to_dec_string(), format!("-{unsigned}"));

    assert_eq!(positive.to_hex_string(), format!("0x{unsigned:x}"));
    assert_eq!(negative.to_hex_string(), format!("-0x{unsigned:x}"));

    let u96 = U96::from_str_radix("3141592653589793", 10).unwrap();
    let p96 = I96::from_dec_str("3141592653589793").unwrap();
    let n96 = p96.checked_neg().unwrap();
    assert_eq!(p96.to_dec_string(), format!("{u96}"));
    assert_eq!(n96.to_dec_string(), format!("-{u96}"));
    assert_eq!(p96.to_hex_string(), format!("0x{u96:x}"));
    assert_eq!(n96.to_hex_string(), format!("-0x{u96:x}"));

    let z = I0::zero();
    let o = I1::zero();
    let m = I1::minus_one();
    assert_eq!(
        format!("{} {} {}", z.to_dec_string(), o.to_dec_string(), m.to_dec_string()),
        "0 0 -1"
    );
}

#[test]
fn byte_and_bit_access() {
    let x = I256::from_dec_str("3141592653589793").unwrap();
    let be = x.to_be_bytes();
    for i in 0..32usize {
        assert_eq!(x.byte(i), be[i]);
    }
    assert!(x.bit(0));
    assert!(!I256::zero().bit(7));
    assert_eq!(I256::minus_one().count_ones(), 256);
    assert_eq!(I256::minus_one().count_zeros(), 0);
    assert_eq!(I256::one().count_ones(), 1);
    assert_eq!(I256::one().trailing_zeros(), 0);
    assert_eq!(I256::minus_one().trailing_ones(), 256);
    assert_eq!(I256::one().leading_zeros(), 255);
    assert_eq!(I256::zero().leading_zeros(), 256);
    assert_eq!(I256::min_value().trailing_zeros(), 255);
}

#[test]
fn byte_encodings_round_trip() {
    let x = I256::from_dec_str("-27182818284590").unwrap();
    let be = x.to_be_bytes();
    let le = x.to_le_bytes();
    assert_eq!(I256::from_be_bytes(be), x);
    assert_eq!(I256::from_le_bytes(le), x);
    assert_eq!(I256::try_from_be_slice(&be), Some(x));
    assert_eq!(I256::try_from_le_slice(&le), Some(x));
    let mut rev = be;
    rev.reverse();
    assert_eq!(rev, le);
    let too_long = [0u8; 33];
    assert_eq!(I256::try_from_be_slice(&too_long), None);
    assert_eq!(I256::try_from_be_slice(&[]), Some(I256::zero()));
    assert_eq!(I256::try_from_be_slice(&[0x2a]), Some(I256::unchecked_from(42)));
}
