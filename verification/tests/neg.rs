use sci_calc::expr::{neg, num};

#[test]
fn simplify() {
    assert_eq!(neg(num(1)).simplify().unwrap(), neg(num(1)));
}

#[test]
fn double_neg() {
    assert_eq!(neg(neg(num(1))).simplify().unwrap(), num(1));
}

#[test]
fn quad_neg() {
    assert_eq!(neg(neg(neg(neg(num(1))))).simplify().unwrap(), num(1));
}
