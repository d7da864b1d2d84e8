use signed_int::aliases::{I0, I1, I256};
use signed_int::sign::Sign;

#[test]
fn abs() {
    let positive = I256::from_dec_str("3141592653589793").unwrap();
    let negative = I256::from_dec_str("-27182818284590").unwrap();

    assert_eq!(positive.sign(), Sign::Positive);
    assert_eq!(positive.abs().sign(), Sign::Positive);
    assert_eq!(positive, positive.abs());
    assert_ne!(negative, negative.abs());
    assert_eq!(negative.sign(), Sign::Negative);
    assert_eq!(negative.abs().sign(), Sign::Positive);
    assert_eq!(I256::zero().abs(), I256::zero());
    assert_eq!(I256::max_value().abs(), I256::max_value());
    assert_eq!(I256::max_value().checked_neg().unwrap().abs(), I256::max_value());
    assert_eq!(I256::min_value().checked_abs(), None);
    assert_eq!(
        I256::min_value().wrapping_abs(),
        I256::min_value()
    );
    assert_eq!(I256::min_value().saturating_abs(), I256::max_value());
    assert_eq!(
        I256::min_value().overflowing_abs(),
        (I256::min_value(), true)
    );

    let z = I0::zero();
    let o = I1::zero();
    let m = I1::minus_one();
    assert_eq!(z.abs(), z);
    assert_eq!(o.abs(), o);
    assert_eq!(m.checked_abs(), None);
}

#[test]
fn neg() {
    let positive = I256::from_dec_str("3141592653589793").unwrap().sign();
    let negative = positive.flipped();

    assert_eq!(positive.flipped(), negative);
    assert_eq!(negative.flipped(), positive);

    assert_eq!(I256::zero().checked_neg().unwrap(), I256::zero());
    assert_eq!(
        I256::max_value().checked_neg().unwrap().checked_neg().unwrap(),
        I256::max_value()
    );
    assert_eq!(I256::min_value().checked_neg(), None);
    assert_eq!(I256::min_value().wrapping_neg(), I256::min_value());
    assert_eq!(I256::min_value().saturating_neg(), I256::max_value());
    assert_eq!(
        I256::min_value().overflowing_neg(),
        (I256::min_value(), true)
    );

    let z = I0::zero();
    let o = I1::zero();
    let m = I1::minus_one();
    assert_eq!(z.checked_neg().unwrap(), z);
    assert_eq!(o.checked_neg().unwrap(), o);
    assert_eq!(m.checked_neg(), None);
}

#[test]
fn sign_abs_round_trip() {
    let samples = ["0", "1", "-1", "42", "-27182818284590"];
    for s in samples {
        let x = I256::from_dec_str(s).unwrap();
        let (sign, abs) = x.into_sign_and_abs();
        let (back, overflow) = I256::overflowing_from_sign_and_abs(sign, abs);
        assert_eq!(back, x);
        assert!(!overflow);
    }
    // a negative sign with magnitude zero still builds zero, no overflow
    let (back, overflow) =
        I256::overflowing_from_sign_and_abs(Sign::Negative, I256::zero().into_raw());
    assert_eq!(back, I256::zero());
    assert!(!overflow);
    // a positive sign with the sign bit set in the magnitude overflows
    let (_, overflow) =
        I256::overflowing_from_sign_and_abs(Sign::Positive, I256::min_value().into_raw());
    assert!(overflow);
    assert_eq!(
        I256::checked_from_sign_and_abs(Sign::Positive, I256::min_value().into_raw()),
        None
    );
}

#[test]
fn is_odd_parity() {
    assert!(!I256::zero().is_odd());
    assert!(I256::one().is_odd());
    assert!(I256::minus_one().is_odd());
    assert!(!I256::min_value().is_odd());
    assert!(I256::max_value().is_odd());
    assert!(!I0::zero().is_odd());
    assert!(I1::minus_one().is_odd());
}

#[test]
fn ordering() {
    let values = [
        I256::min_value(),
        I256::unchecked_from(-2),
        I256::minus_one(),
        I256::zero(),
        I256::one(),
        I256::unchecked_from(2),
        I256::max_value(),
    ];
    for i in 0..values.len() {
        for j in 0..values.len() {
            assert_eq!(values[i] < values[j], i < j);
            assert_eq!(values[i] == values[j], i == j);
            assert_eq!(values[i] > values[j], i > j);
        }
    }
}
