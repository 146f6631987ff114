use sci_calc::consts::{euler, pi, zero};
use sci_calc::expr::{neg, num};

#[test]
fn structural_equality_is_syntactic() {
    assert_eq!(num(1), num(1));
    assert_ne!(num(1), num(2));
    assert_ne!(neg(num(1)), num(1));
    // order matters for structural equality, even though it does not
    // affect the value of a sum
    assert_ne!(
        sci_calc::expr::add(vec![num(1), num(2)]),
        sci_calc::expr::add(vec![num(2), num(1)])
    );
}

#[test]
fn constants_are_distinct_leaves() {
    assert_ne!(zero(), pi());
    assert_ne!(pi(), euler());
    assert_eq!(pi(), pi());
}

// Construction is total: a zero denominator or an empty product is
// accepted without failure; invalidity only surfaces at evaluation time.
#[test]
fn construction_never_validates() {
    let division_by_zero = sci_calc::expr::frac(num(1), num(0));
    assert_eq!(division_by_zero, sci_calc::expr::frac(num(1), num(0)));
    let empty_product = sci_calc::expr::mul(vec![]);
    assert_eq!(empty_product, sci_calc::expr::mul(vec![]));
}
