//! One ready-made constant leaf per enumerated constant name.

use vstd::prelude::*;

use crate::expr::{ConstName, Expr, Node};

verus! {

/// The additive identity as an expression leaf.
pub fn zero() -> (r: Expr)
    ensures
        r@ == (Node::Constant { name: ConstName::Zero }),
{
    crate::expr::constant(ConstName::Zero)
}

/// The circle constant as an expression leaf.
pub fn pi() -> (r: Expr)
    ensures
        r@ == (Node::Constant { name: ConstName::Pi }),
{
    crate::expr::constant(ConstName::Pi)
}

/// The base of the natural logarithm as an expression leaf.
pub fn euler() -> (r: Expr)
    ensures
        r@ == (Node::Constant { name: ConstName::Euler }),
{
    crate::expr::constant(ConstName::Euler)
}

} // verus!
