use sci_calc::consts::{pi, zero};
use sci_calc::expr::{neg, num, Expr};
use sci_calc::simplify::SimplifyError;

// A composite operand used where a test needs the same subtree several
// times; trees are exclusively owned, so each use builds it afresh.
fn composite() -> Expr {
    sci_calc::expr::add(vec![num(2), pi()])
}

#[test]
fn fold_three_ones() {
    assert_eq!(
        sci_calc::expr::add(vec![num(1), num(1), num(1)]).simplify().unwrap(),
        num(3)
    );
}

#[test]
fn cancel_to_zero() {
    assert_eq!(
        sci_calc::expr::add(vec![num(1), neg(num(1))]).simplify().unwrap(),
        zero()
    );
}

#[test]
fn repeated_operands_cancel() {
    let sum = sci_calc::expr::add(vec![
        composite(),
        composite(),
        neg(composite()),
        neg(composite()),
    ]);
    assert_eq!(sum.simplify().unwrap(), zero());
}

#[test]
fn cancellation_is_order_independent() {
    assert_eq!(
        sci_calc::expr::add(vec![neg(pi()), num(1), pi()]).simplify().unwrap(),
        num(1)
    );
}

#[test]
fn empty_sum_collapses_to_zero() {
    assert_eq!(sci_calc::expr::add(vec![]).simplify().unwrap(), zero());
}

#[test]
fn singleton_sum_collapses_to_child() {
    assert_eq!(sci_calc::expr::add(vec![pi()]).simplify().unwrap(), pi());
}

#[test]
fn literal_and_constant_untouched() {
    assert_eq!(num(7).simplify().unwrap(), num(7));
    assert_eq!(pi().simplify().unwrap(), pi());
}

#[test]
fn simplify_is_idempotent_here() {
    let once = sci_calc::expr::add(vec![num(1), num(1), neg(num(1))]).simplify().unwrap();
    assert_eq!(once, num(1));
    assert_eq!(once.simplify().unwrap(), num(1));
}

// Folding can mint a literal whose negation survived cancellation; the
// pair is only removed by a second round of simplification.
#[test]
fn folding_can_need_a_second_round() {
    let first = sci_calc::expr::add(vec![num(1), num(2), neg(num(3))]).simplify().unwrap();
    assert_eq!(
        first,
        sci_calc::expr::add(vec![num(3), neg(num(3))])
    );
    assert_eq!(first.simplify().unwrap(), zero());
}

#[test]
fn product_is_unsupported() {
    assert_eq!(
        sci_calc::expr::mul(vec![num(2), num(3)]).simplify(),
        Err(SimplifyError::Unsupported)
    );
}

#[test]
fn fraction_is_unsupported() {
    assert_eq!(
        sci_calc::expr::frac(num(1), num(2)).simplify(),
        Err(SimplifyError::Unsupported)
    );
}

#[test]
fn nested_unsupported_is_reported() {
    let sum = sci_calc::expr::add(vec![num(1), sci_calc::expr::mul(vec![num(2)])]);
    assert_eq!(sum.simplify(), Err(SimplifyError::Unsupported));
}

#[test]
fn literal_total_sums_all_magnitudes() {
    let tree = sci_calc::expr::add(vec![num(2), neg(num(3)), sci_calc::expr::frac(num(4), pi())]);
    assert_eq!(tree.literal_total(), Some(9));
}

#[test]
fn literal_total_reports_overflow() {
    let tree = sci_calc::expr::add(vec![num(u128::MAX), num(1)]);
    assert_eq!(tree.literal_total(), None);
}

#[test]
fn largest_literal_folds() {
    let sum = sci_calc::expr::add(vec![num(u128::MAX), num(0)]);
    assert_eq!(sum.simplify().unwrap(), num(u128::MAX));
}
