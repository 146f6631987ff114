use sci_calc::consts::{euler, pi, zero};
use sci_calc::expr::{neg, num};

#[test]
fn literals_render_in_decimal() {
    assert_eq!(num(0).render(), "0");
    assert_eq!(num(7).render(), "7");
    assert_eq!(num(1066).render(), "1066");
    assert_eq!(
        num(u128::MAX).render(),
        "340282366920938463463374607431768211455"
    );
}

#[test]
fn constants_render_as_symbols() {
    assert_eq!(zero().render(), "0");
    assert_eq!(pi().render(), "\u{3c0}");
    assert_eq!(euler().render(), "e");
}

#[test]
fn compound_nodes_render_with_parentheses() {
    assert_eq!(neg(num(3)).render(), "-(3)");
    assert_eq!(
        sci_calc::expr::add(vec![num(1), pi(), neg(num(2))]).render(),
        "(1) + (\u{3c0}) + (-(2))"
    );
    assert_eq!(
        sci_calc::expr::mul(vec![num(2), num(3)]).render(),
        "(2) * (3)"
    );
    assert_eq!(sci_calc::expr::frac(num(1), num(2)).render(), "(1)/(2)");
}
