//! The expression tree, its mathematical model, and the constructor layer.

use vstd::prelude::*;

verus! {

/// The closed set of named constants an expression may mention.
///
/// Each name stands for one fixed real value that is only consulted when a
/// tree is evaluated numerically; the symbolic layer treats the names as
/// opaque leaves so that structural cancellation stays exact.
#[derive(Clone, Copy, Debug, PartialEq, Eq, Structural)]
pub enum ConstName {
    Zero,
    Pi,
    Euler,
}

/// The mathematical model of an expression tree.
///
/// `Node` mirrors [`Expr`] with ghost types: magnitudes are unbounded
/// naturals and child lists are sequences.  All contracts of this crate are
/// stated over `Node` values, reached from exec trees through the view `@`.
#[verifier::ext_equal]
pub enum Node {
    Literal { magnitude: nat },
    Negation { inner: Box<Node> },
    Sum { children: Seq<Node> },
    Product { children: Seq<Node> },
    Fraction { numerator: Box<Node>, denominator: Box<Node> },
    Constant { name: ConstName },
}

/// One arithmetic expression: a tagged tree, immutable once built and
/// exclusively owned by its holder.
///
/// A `Literal` holds a nonnegative exact magnitude; a negative value is
/// always represented as `Negation(Literal(..))` so that cancellation can
/// rely on structural equality alone.
#[derive(Debug)]
pub enum Expr {
    Literal(u128),
    Negation(Box<Expr>),
    Sum(Vec<Expr>),
    Product(Vec<Expr>),
    Fraction(Box<Expr>, Box<Expr>),
    Constant(ConstName),
}

/// The model of one exec tree.
pub open spec fn node_of(e: Expr) -> Node
    decreases e,
{
    match e {
        Expr::Literal(m) => Node::Literal { magnitude: m as nat },
        Expr::Negation(inner) => Node::Negation { inner: Box::new(node_of(*inner)) },
        Expr::Sum(children) => Node::Sum { children: nodes_of(children@) },
        Expr::Product(children) => Node::Product { children: nodes_of(children@) },
        Expr::Fraction(n, d) => Node::Fraction {
            numerator: Box::new(node_of(*n)),
            denominator: Box::new(node_of(*d)),
        },
        Expr::Constant(c) => Node::Constant { name: c },
    }
}

/// The models of a sequence of exec trees, in order.
pub open spec fn nodes_of(s: Seq<Expr>) -> Seq<Node>
    decreases s,
{
    if s.len() == 0 {
        Seq::empty()
    } else {
        seq![node_of(s[0])] + nodes_of(s.subrange(1, s.len() as int))
    }
}

pub proof fn lemma_nodes_of(s: Seq<Expr>)
    ensures
        nodes_of(s).len() == s.len(),
        forall|i: int| 0 <= i < s.len() ==> nodes_of(s)[i] == node_of(#[trigger] s[i]),
    decreases s,
{
    if s.len() > 0 {
        let sub = s.subrange(1, s.len() as int);
        lemma_nodes_of(sub);
        assert forall|i: int| 0 <= i < s.len() implies nodes_of(s)[i] == node_of(#[trigger] s[i]) by {
            if i > 0 {
                assert(sub[i - 1] == s[i]);
                assert(nodes_of(s)[i] == nodes_of(sub)[i - 1]);
            }
        }
    }
}

impl View for Expr {
    type V = Node;

    open spec fn view(&self) -> Node {
        node_of(*self)
    }
}

/// The number of nodes in a tree; a convenient termination measure for
/// executable recursion over trees.
pub open spec fn size(n: Node) -> nat
    decreases n,
{
    match n {
        Node::Literal { .. } => 1,
        Node::Negation { inner } => 1 + size(*inner),
        Node::Sum { children } => 1 + size_seq(children),
        Node::Product { children } => 1 + size_seq(children),
        Node::Fraction { numerator, denominator } => 1 + size(*numerator) + size(*denominator),
        Node::Constant { .. } => 1,
    }
}

/// The total number of nodes in a sequence of trees.
pub open spec fn size_seq(s: Seq<Node>) -> nat
    decreases s,
{
    if s.len() == 0 {
        0
    } else {
        size(s[0]) + size_seq(s.subrange(1, s.len() as int))
    }
}

pub proof fn lemma_size_seq_elem(s: Seq<Node>, i: int)
    requires
        0 <= i < s.len(),
    ensures
        size(s[i]) <= size_seq(s),
    decreases s,
{
    if i > 0 {
        let sub = s.subrange(1, s.len() as int);
        lemma_size_seq_elem(sub, i - 1);
        assert(sub[i - 1] == s[i]);
    }
}

/// Decides structural equality of two trees: same tag and recursively equal
/// children in order.  This is the equality that cancellation relies on; it
/// is syntactic, not numeric.
pub fn eq_expr(a: &Expr, b: &Expr) -> (r: bool)
    ensures
        r == (a@ == b@),
    decreases size(a@), 0nat,
{
    match (a, b) {
        (Expr::Literal(x), Expr::Literal(y)) => *x == *y,
        (Expr::Negation(x), Expr::Negation(y)) => eq_expr(x, y),
        (Expr::Sum(xs), Expr::Sum(ys)) => eq_children(xs, ys),
        (Expr::Product(xs), Expr::Product(ys)) => eq_children(xs, ys),
        (Expr::Fraction(xn, xd), Expr::Fraction(yn, yd)) => {
            eq_expr(xn, yn) && eq_expr(xd, yd)
        },
        (Expr::Constant(x), Expr::Constant(y)) => *x == *y,
        _ => false,
    }
}

fn eq_children(xs: &Vec<Expr>, ys: &Vec<Expr>) -> (r: bool)
    ensures
        r == (nodes_of(xs@) == nodes_of(ys@)),
    decreases size_seq(nodes_of(xs@)), 1nat,
{
    proof {
        lemma_nodes_of(xs@);
        lemma_nodes_of(ys@);
    }
    if xs.len() != ys.len() {
        return false;
    }
    let n = xs.len();
    let mut i: usize = 0;
    while i < n
        invariant
            0 <= i <= n,
            n == xs@.len() == ys@.len(),
            nodes_of(xs@).len() == n,
            nodes_of(ys@).len() == n,
            forall|j: int| 0 <= j < xs@.len() ==> nodes_of(xs@)[j] == node_of(#[trigger] xs@[j]),
            forall|j: int| 0 <= j < ys@.len() ==> nodes_of(ys@)[j] == node_of(#[trigger] ys@[j]),
            forall|j: int| 0 <= j < i ==> nodes_of(xs@)[j] == nodes_of(ys@)[j],
        decreases n - i,
    {
        proof {
            lemma_size_seq_elem(nodes_of(xs@), i as int);
        }
        if !eq_expr(&xs[i], &ys[i]) {
            proof {
                assert(nodes_of(xs@)[i as int] != nodes_of(ys@)[i as int]);
            }
            return false;
        }
        i += 1;
    }
    proof {
        assert(nodes_of(xs@) =~= nodes_of(ys@));
    }
    true
}

impl PartialEq for Expr {
    fn eq(&self, other: &Expr) -> (r: bool) {
        eq_expr(self, other)
    }
}

impl vstd::std_specs::cmp::PartialEqSpecImpl for Expr {
    open spec fn obeys_eq_spec() -> bool {
        true
    }

    open spec fn eq_spec(&self, other: &Expr) -> bool {
        self@ == other@
    }
}

/// Builds a literal leaf holding an exact nonnegative magnitude.
pub fn num(magnitude: u128) -> (r: Expr)
    ensures
        r@ == (Node::Literal { magnitude: magnitude as nat }),
{
    Expr::Literal(magnitude)
}

/// Wraps a tree in an arithmetic negation.
pub fn neg(inner: Expr) -> (r: Expr)
    ensures
        r@ == (Node::Negation { inner: Box::new(inner@) }),
{
    Expr::Negation(Box::new(inner))
}

/// Builds a sum over an ordered list of children.
pub fn add(children: Vec<Expr>) -> (r: Expr)
    ensures
        r@ == (Node::Sum { children: nodes_of(children@) }),
{
    Expr::Sum(children)
}

/// Builds a product over an ordered list of children.
pub fn mul(children: Vec<Expr>) -> (r: Expr)
    ensures
        r@ == (Node::Product { children: nodes_of(children@) }),
{
    Expr::Product(children)
}

/// Builds a fraction from a numerator and a denominator.  Construction is
/// total: a denominator that evaluates to zero is accepted here and only
/// surfaces at evaluation time.
pub fn frac(numerator: Expr, denominator: Expr) -> (r: Expr)
    ensures
        r@ == (Node::Fraction {
            numerator: Box::new(numerator@),
            denominator: Box::new(denominator@),
        }),
{
    Expr::Fraction(Box::new(numerator), Box::new(denominator))
}

/// Builds a named-constant leaf.
pub fn constant(name: ConstName) -> (r: Expr)
    ensures
        r@ == (Node::Constant { name }),
{
    Expr::Constant(name)
}

pub proof fn lemma_nodes_of_push(s: Seq<Expr>, e: Expr)
    ensures
        nodes_of(s.push(e)) == nodes_of(s).push(e@),
{
    lemma_nodes_of(s);
    lemma_nodes_of(s.push(e));
    assert forall|i: int| 0 <= i < s.push(e).len() implies nodes_of(s.push(e))[i] == nodes_of(
        s,
    ).push(node_of(e))[i] by {
        assert(nodes_of(s.push(e))[i] == node_of(s.push(e)[i]));
        if i < s.len() {
            assert(s.push(e)[i] == s[i]);
        } else {
            assert(s.push(e)[i] == e);
        }
    }
    assert(nodes_of(s.push(e)) =~= nodes_of(s).push(node_of(e)));
}

pub proof fn lemma_nodes_of_subrange(s: Seq<Expr>, a: int, b: int)
    requires
        0 <= a <= b <= s.len(),
    ensures
        nodes_of(s.subrange(a, b)) == nodes_of(s).subrange(a, b),
{
    lemma_nodes_of(s);
    lemma_nodes_of(s.subrange(a, b));
    assert forall|i: int| 0 <= i < b - a implies nodes_of(s.subrange(a, b))[i] == nodes_of(
        s,
    ).subrange(a, b)[i] by {
        assert(s.subrange(a, b)[i] == s[a + i]);
    }
    assert(nodes_of(s.subrange(a, b)) =~= nodes_of(s).subrange(a, b));
}

/// What a single overlay addition step yields: append to an existing sum if
/// either operand is one, fold two literals exactly, and otherwise start a
/// fresh two-child sum.
pub open spec fn overlay_add(a: Node, b: Node) -> Node {
    if a is Sum {
        Node::Sum { children: a->Sum_children.push(b) }
    } else if b is Sum {
        Node::Sum { children: b->Sum_children.push(a) }
    } else if a is Literal && b is Literal {
        Node::Literal { magnitude: a->Literal_magnitude + b->Literal_magnitude }
    } else {
        Node::Sum { children: seq![a, b] }
    }
}

/// What a single overlay subtraction step yields: the subtrahend is wrapped
/// in a negation first, then added as in [`overlay_add`].
pub open spec fn overlay_sub(a: Node, b: Node) -> Node {
    overlay_add(a, Node::Negation { inner: Box::new(b) })
}

/// What a single overlay negation step yields: one level of unwrapping if
/// the tree is already a negation, otherwise one level of wrapping.  Unlike
/// simplification this is not transitive.
pub open spec fn overlay_neg(a: Node) -> Node {
    match a {
        Node::Negation { inner } => *inner,
        _ => Node::Negation { inner: Box::new(a) },
    }
}

impl Expr {
    /// Single-step addition combinator: appends to whichever operand is
    /// already a sum, folds two literals into one by exact addition, and
    /// otherwise builds a fresh two-child sum.  Weaker than simplification:
    /// it never cancels.
    pub fn plus(self, other: Expr) -> (r: Expr)
        requires
            (self@ is Literal && other@ is Literal) ==> self@->Literal_magnitude
                + other@->Literal_magnitude <= u128::MAX,
        ensures
            r@ == overlay_add(self@, other@),
    {
        match (self, other) {
            (Expr::Sum(mut xs), b) => {
                proof {
                    lemma_nodes_of_push(xs@, b);
                }
                xs.push(b);
                Expr::Sum(xs)
            },
            (a, Expr::Sum(mut ys)) => {
                proof {
                    lemma_nodes_of_push(ys@, a);
                }
                ys.push(a);
                Expr::Sum(ys)
            },
            (Expr::Literal(x), Expr::Literal(y)) => Expr::Literal(x + y),
            (a, b) => {
                let ghost an = a@;
                let ghost bn = b@;
                let mut v: Vec<Expr> = Vec::new();
                v.push(a);
                v.push(b);
                proof {
                    lemma_nodes_of(v@);
                    assert(nodes_of(v@)[0] == node_of(v@[0]));
                    assert(nodes_of(v@)[1] == node_of(v@[1]));
                    assert(nodes_of(v@) =~= seq![an, bn]);
                }
                Expr::Sum(v)
            },
        }
    }

    /// Single-step subtraction combinator: wraps the subtrahend in a
    /// negation and then proceeds as [`Expr::plus`].
    pub fn minus(self, other: Expr) -> (r: Expr)
        ensures
            r@ == overlay_sub(self@, other@),
    {
        self.plus(Expr::Negation(Box::new(other)))
    }

    /// In-place addition combinator: mutates the left operand following the
    /// same case analysis as [`Expr::plus`].
    pub fn accumulate(&mut self, other: Expr)
        requires
            (old(self)@ is Literal && other@ is Literal) ==> old(self)@->Literal_magnitude
                + other@->Literal_magnitude <= u128::MAX,
        ensures
            final(self)@ == overlay_add(old(self)@, other@),
    {
        let mut taken = Expr::Constant(ConstName::Zero);
        core::mem::swap(self, &mut taken);
        *self = taken.plus(other);
    }

    /// Single-step unary negation: unwraps one negation if the tree already
    /// is one, otherwise wraps it in one.  This is deliberately NOT the
    /// transitive double-negation elimination the simplifier performs.
    pub fn negate(self) -> (r: Expr)
        ensures
            r@ == overlay_neg(self@),
    {
        match self {
            Expr::Negation(inner) => *inner,
            s => Expr::Negation(Box::new(s)),
        }
    }
}

} // verus!
