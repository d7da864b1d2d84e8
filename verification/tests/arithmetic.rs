use signed_int::aliases::{I0, I1, I256};

#[test]
fn addition() {
    assert_eq!(
        I256::min_value().overflowing_add(I256::min_value()),
        (I256::zero(), true)
    );
    assert_eq!(
        I256::max_value().overflowing_add(I256::max_value()),
        (I256::unchecked_from(-2), true)
    );

    assert_eq!(
        I256::min_value().overflowing_add(I256::minus_one()),
        (I256::max_value(), true)
    );
    assert_eq!(
        I256::max_value().overflowing_add(I256::one()),
        (I256::min_value(), true)
    );

    assert_eq!(
        I256::max_value().checked_add(I256::min_value()).unwrap(),
        I256::minus_one()
    );
    assert_eq!(
        I256::unchecked_from(2).checked_add(I256::unchecked_from(40)).unwrap(),
        I256::unchecked_from(42)
    );

    assert_eq!(I256::zero().checked_add(I256::zero()).unwrap(), I256::zero());

    assert_eq!(
        I256::max_value().saturating_add(I256::max_value()),
        I256::max_value()
    );
    assert_eq!(
        I256::min_value().saturating_add(I256::minus_one()),
        I256::min_value()
    );

    let z = I0::zero();
    let o = I1::zero();
    let m = I1::minus_one();
    assert_eq!(z.checked_add(z).unwrap(), z);
    assert_eq!(o.checked_add(o).unwrap(), o);
    assert_eq!(m.checked_add(o).unwrap(), m);
    assert_eq!(m.overflowing_add(m), (o, true));
}

#[test]
fn subtraction() {
    assert_eq!(
        I256::min_value().overflowing_sub(I256::max_value()),
        (I256::one(), true)
    );
    assert_eq!(
        I256::max_value().overflowing_sub(I256::min_value()),
        (I256::minus_one(), true)
    );

    assert_eq!(
        I256::min_value().overflowing_sub(I256::one()),
        (I256::max_value(), true)
    );
    assert_eq!(
        I256::max_value().overflowing_sub(I256::minus_one()),
        (I256::min_value(), true)
    );

    assert_eq!(
        I256::zero().overflowing_sub(I256::min_value()),
        (I256::min_value(), true)
    );

    assert_eq!(
        I256::max_value().checked_sub(I256::max_value()).unwrap(),
        I256::zero()
    );
    assert_eq!(
        I256::unchecked_from(2).checked_sub(I256::unchecked_from(44)).unwrap(),
        I256::unchecked_from(-42)
    );

    assert_eq!(I256::zero().checked_sub(I256::zero()).unwrap(), I256::zero());

    assert_eq!(
        I256::max_value().saturating_sub(I256::min_value()),
        I256::max_value()
    );
    assert_eq!(
        I256::min_value().saturating_sub(I256::one()),
        I256::min_value()
    );
}

#[test]
fn multiplication() {
    assert_eq!(
        I256::min_value().overflowing_mul(I256::max_value()),
        (I256::min_value(), true)
    );
    assert_eq!(
        I256::max_value().overflowing_mul(I256::min_value()),
        (I256::min_value(), true)
    );

    assert_eq!(
        I256::min_value().checked_mul(I256::one()).unwrap(),
        I256::min_value()
    );
    assert_eq!(
        I256::unchecked_from(2).checked_mul(I256::unchecked_from(-21)).unwrap(),
        I256::unchecked_from(-42)
    );

    assert_eq!(
        I256::max_value().saturating_mul(I256::max_value()),
        I256::max_value()
    );
    assert_eq!(
        I256::max_value().saturating_mul(I256::unchecked_from(2)),
        I256::max_value()
    );
    assert_eq!(
        I256::min_value().saturating_mul(I256::unchecked_from(-2)),
        I256::max_value()
    );

    assert_eq!(
        I256::min_value().saturating_mul(I256::max_value()),
        I256::min_value()
    );
    assert_eq!(
        I256::min_value().saturating_mul(I256::unchecked_from(2)),
        I256::min_value()
    );
    assert_eq!(
        I256::max_value().saturating_mul(I256::unchecked_from(-2)),
        I256::min_value()
    );

    assert_eq!(I256::zero().checked_mul(I256::zero()).unwrap(), I256::zero());
    assert_eq!(I256::one().checked_mul(I256::zero()).unwrap(), I256::zero());
    assert_eq!(
        I256::max_value().checked_mul(I256::zero()).unwrap(),
        I256::zero()
    );
    assert_eq!(
        I256::min_value().checked_mul(I256::zero()).unwrap(),
        I256::zero()
    );

    let z = I0::zero();
    let o = I1::zero();
    let m = I1::minus_one();
    assert_eq!(z.checked_mul(z).unwrap(), z);
    assert_eq!(o.checked_mul(o).unwrap(), o);
    assert_eq!(m.checked_mul(o).unwrap(), o);
    assert_eq!(m.overflowing_mul(m), (m, true));
}

#[test]
fn division() {
    // The only case for overflow.
    assert_eq!(
        I256::min_value().overflowing_div(I256::unchecked_from(-1)),
        (I256::min_value(), true)
    );

    assert_eq!(
        I256::min_value().checked_div(I256::max_value()).unwrap(),
        I256::unchecked_from(-1)
    );
    assert_eq!(
        I256::max_value().checked_div(I256::min_value()).unwrap(),
        I256::zero()
    );

    assert_eq!(
        I256::min_value().checked_div(I256::one()).unwrap(),
        I256::min_value()
    );
    assert_eq!(
        I256::unchecked_from(-42).checked_div(I256::unchecked_from(-21)).unwrap(),
        I256::unchecked_from(2)
    );
    assert_eq!(
        I256::unchecked_from(-42).checked_div(I256::unchecked_from(2)).unwrap(),
        I256::unchecked_from(-21)
    );
    assert_eq!(
        I256::unchecked_from(42).checked_div(I256::unchecked_from(-21)).unwrap(),
        I256::unchecked_from(-2)
    );
    assert_eq!(
        I256::unchecked_from(42).checked_div(I256::unchecked_from(21)).unwrap(),
        I256::unchecked_from(2)
    );

    // The only saturating corner case.
    assert_eq!(
        I256::min_value().saturating_div(I256::unchecked_from(-1)),
        I256::max_value()
    );

    let z = I0::zero();
    let o = I1::zero();
    let m = I1::minus_one();
    assert_eq!(z.checked_div(z), None);
    assert_eq!(o.checked_div(o), None);
    assert_eq!(m.checked_div(o), None);
    assert_eq!(m.overflowing_div(m), (m, true));
}

#[test]
fn remainder() {
    // The only case for overflow.
    assert_eq!(
        I256::min_value().overflowing_rem(I256::unchecked_from(-1)),
        (I256::zero(), true)
    );
    assert_eq!(
        I256::unchecked_from(-5).checked_rem(I256::unchecked_from(-2)).unwrap(),
        I256::unchecked_from(-1)
    );
    assert_eq!(
        I256::unchecked_from(5).checked_rem(I256::unchecked_from(-2)).unwrap(),
        I256::one()
    );
    assert_eq!(
        I256::unchecked_from(-5).checked_rem(I256::unchecked_from(2)).unwrap(),
        I256::unchecked_from(-1)
    );
    assert_eq!(
        I256::unchecked_from(5).checked_rem(I256::unchecked_from(2)).unwrap(),
        I256::one()
    );

    assert_eq!(I256::min_value().checked_rem(I256::unchecked_from(-1)), None);
    assert_eq!(
        I256::min_value().saturating_rem(I256::unchecked_from(-1)),
        I256::zero()
    );
    assert_eq!(
        I256::one().checked_rem(I256::one()),
        Some(I256::zero())
    );

    let z = I0::zero();
    let o = I1::zero();
    let m = I1::minus_one();
    assert_eq!(z.checked_rem(z), None);
    assert_eq!(o.checked_rem(o), None);
    assert_eq!(m.checked_rem(o), None);
    assert_eq!(m.overflowing_rem(m), (o, true));
}

#[test]
fn div_euclid() {
    let a = I256::unchecked_from(7);
    let b = I256::unchecked_from(4);
    let nb = I256::unchecked_from(-4);
    let na = I256::unchecked_from(-7);

    assert_eq!(a.div_euclid(b), I256::one()); // 7 >= 4 * 1
    assert_eq!(a.div_euclid(nb), I256::minus_one()); // 7 >= -4 * -1
    assert_eq!(na.div_euclid(b), I256::unchecked_from(-2)); // -7 >= 4 * -2
    assert_eq!(na.div_euclid(nb), I256::unchecked_from(2)); // -7 >= -4 * 2

    // Overflowing
    assert_eq!(
        I256::min_value().overflowing_div_euclid(I256::minus_one()),
        (I256::min_value(), true)
    );
    // Wrapping
    assert_eq!(
        I256::min_value().wrapping_div_euclid(I256::minus_one()),
        I256::min_value()
    );
    // Checked
    assert_eq!(I256::min_value().checked_div_euclid(I256::minus_one()), None);
    assert_eq!(I256::one().checked_div_euclid(I256::zero()), None);
    // Saturating
    assert_eq!(
        I256::min_value().saturating_div_euclid(I256::minus_one()),
        I256::max_value()
    );

    let z = I0::zero();
    let o = I1::zero();
    let m = I1::minus_one();
    assert_eq!(z.checked_div_euclid(z), None);
    assert_eq!(o.checked_div_euclid(o), None);
    assert_eq!(m.checked_div_euclid(o), None);
    assert_eq!(m.overflowing_div_euclid(m), (m, true));
}

#[test]
fn rem_euclid() {
    let a = I256::unchecked_from(7);
    let b = I256::unchecked_from(4);
    let na = I256::unchecked_from(-7);
    let nb = I256::unchecked_from(-4);

    assert_eq!(a.rem_euclid(b), I256::unchecked_from(3));
    assert_eq!(na.rem_euclid(b), I256::one());
    assert_eq!(a.rem_euclid(nb), I256::unchecked_from(3));
    assert_eq!(na.rem_euclid(nb), I256::one());

    // Overflowing
    assert_eq!(a.overflowing_rem_euclid(b), (I256::unchecked_from(3), false));
    assert_eq!(
        I256::min_value().overflowing_rem_euclid(I256::minus_one()),
        (I256::zero(), true)
    );

    // Wrapping
    assert_eq!(
        I256::unchecked_from(100).wrapping_rem_euclid(I256::unchecked_from(10)),
        I256::zero()
    );
    assert_eq!(
        I256::min_value().wrapping_rem_euclid(I256::minus_one()),
        I256::zero()
    );

    // Checked
    assert_eq!(a.checked_rem_euclid(b), Some(I256::unchecked_from(3)));
    assert_eq!(a.checked_rem_euclid(I256::zero()), None);
    assert_eq!(I256::min_value().checked_rem_euclid(I256::minus_one()), None);
    // Saturating
    assert_eq!(
        I256::min_value().saturating_rem_euclid(I256::minus_one()),
        I256::zero()
    );

    let z = I0::zero();
    let o = I1::zero();
    let m = I1::minus_one();
    assert_eq!(z.checked_rem_euclid(z), None);
    assert_eq!(o.checked_rem_euclid(o), None);
    assert_eq!(m.checked_rem_euclid(o), None);
    assert_eq!(m.overflowing_rem_euclid(m), (o, true));
}

#[test]
fn euclid_law_scenario() {
    // the division identity with a non-negative remainder below |divisor|
    let pairs = [(7i128, 4i128), (-7, 4), (7, -4), (-7, -4), (100, 10), (-100, 7)];
    for (d, v) in pairs {
        let sd = I256::unchecked_from(d);
        let sv = I256::unchecked_from(v);
        let q = sd.div_euclid(sv);
        let r = sd.rem_euclid(sv);
        assert_eq!(
            q.checked_mul(sv).unwrap().checked_add(r).unwrap(),
            sd
        );
        assert!(!r.is_negative());
        assert!(r.checked_sub(sv.checked_abs().unwrap()).unwrap().is_negative());
    }
}
