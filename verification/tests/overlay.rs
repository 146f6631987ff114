use sci_calc::consts::pi;
use sci_calc::expr::{neg, num};

#[test]
fn plus_folds_two_literals() {
    assert_eq!(num(2).plus(num(3)), num(5));
}

#[test]
fn plus_appends_to_left_sum() {
    assert_eq!(
        sci_calc::expr::add(vec![num(1)]).plus(pi()),
        sci_calc::expr::add(vec![num(1), pi()])
    );
}

#[test]
fn plus_appends_to_right_sum() {
    assert_eq!(
        pi().plus(sci_calc::expr::add(vec![num(1)])),
        sci_calc::expr::add(vec![num(1), pi()])
    );
}

#[test]
fn plus_starts_a_fresh_sum() {
    assert_eq!(pi().plus(num(1)), sci_calc::expr::add(vec![pi(), num(1)]));
}

#[test]
fn minus_wraps_the_subtrahend() {
    assert_eq!(
        num(1).minus(num(1)),
        sci_calc::expr::add(vec![num(1), neg(num(1))])
    );
}

#[test]
fn minus_appends_to_left_sum() {
    assert_eq!(
        sci_calc::expr::add(vec![num(5)]).minus(num(2)),
        sci_calc::expr::add(vec![num(5), neg(num(2))])
    );
}

#[test]
fn accumulate_appends_in_place() {
    let mut sum = sci_calc::expr::add(vec![num(1)]);
    sum.accumulate(num(2));
    assert_eq!(sum, sci_calc::expr::add(vec![num(1), num(2)]));
}

#[test]
fn accumulate_folds_literals_in_place() {
    let mut left = num(2);
    left.accumulate(num(3));
    assert_eq!(left, num(5));
}

#[test]
fn negate_wraps() {
    assert_eq!(pi().negate(), neg(pi()));
}

#[test]
fn negate_unwraps_one_level() {
    assert_eq!(neg(pi()).negate(), pi());
}

// Unary negation is single-step, unlike the simplifier's transitive
// double-negation elimination.
#[test]
fn negate_is_single_level() {
    assert_eq!(neg(neg(pi())).negate(), neg(pi()));
}
