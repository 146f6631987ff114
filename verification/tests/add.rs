use sci_calc::consts::pi;
use sci_calc::expr::{neg, num};

#[test]
fn simplify_easy() {
    assert_eq!(
        sci_calc::expr::add(vec![num(1), num(1), neg(num(1))]).simplify().unwrap(),
        num(1)
    );
}

#[test]
fn simplify_hard() {
    let add = sci_calc::expr::add(vec![num(1), num(1), num(1), neg(num(1))]);
    assert_eq!(add.simplify().unwrap(), num(2));
}

// Cancellation is structural, so the symbolic constant drops out exactly;
// plain floating-point arithmetic would not give the exact answer here.
#[test]
fn simplify_const() {
    assert_eq!(
        sci_calc::expr::add(vec![pi(), num(1), neg(pi())]).simplify().unwrap(),
        num(1)
    );
}
