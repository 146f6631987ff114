//! Text rendering of expression trees.

use vstd::prelude::*;
use vstd::string::StringExecFns;

use crate::expr::{
    lemma_nodes_of, lemma_size_seq_elem, node_of, nodes_of, size, size_seq, ConstName, Expr, Node,
};

verus! {

/// The decimal digit character for a value below ten.
pub open spec fn digit_char(d: nat) -> char {
    if d == 0 {
        '0'
    } else if d == 1 {
        '1'
    } else if d == 2 {
        '2'
    } else if d == 3 {
        '3'
    } else if d == 4 {
        '4'
    } else if d == 5 {
        '5'
    } else if d == 6 {
        '6'
    } else if d == 7 {
        '7'
    } else if d == 8 {
        '8'
    } else {
        '9'
    }
}

/// The decimal rendering of a magnitude, most significant digit first.
pub open spec fn dec_of(m: nat) -> Seq<char>
    decreases m,
{
    if m < 10 {
        seq![digit_char(m)]
    } else {
        dec_of(m / 10) + seq![digit_char(m % 10)]
    }
}

/// The printed symbol of a named constant.
pub open spec fn constant_symbol(name: ConstName) -> Seq<char> {
    match name {
        ConstName::Zero => seq!['0'],
        ConstName::Pi => seq!['\u{3c0}'],
        ConstName::Euler => seq!['e'],
    }
}

/// The text of one tree: literals in decimal, every child of a compound
/// node in its own parentheses.
pub open spec fn rendered(n: Node) -> Seq<char>
    decreases n,
{
    match n {
        Node::Literal { magnitude } => dec_of(magnitude),
        Node::Negation { inner } => seq!['-', '('] + rendered(*inner) + seq![')'],
        Node::Sum { children } => rendered_list(children, seq![' ', '+', ' ']),
        Node::Product { children } => rendered_list(children, seq![' ', '*', ' ']),
        Node::Fraction { numerator, denominator } => seq!['('] + rendered(*numerator) + seq![
            ')',
            '/',
            '(',
        ] + rendered(*denominator) + seq![')'],
        Node::Constant { name } => constant_symbol(name),
    }
}

/// The texts of a child list, each wrapped in parentheses, joined by the
/// separator.
pub open spec fn rendered_list(s: Seq<Node>, sep: Seq<char>) -> Seq<char>
    decreases s,
{
    if s.len() == 0 {
        Seq::empty()
    } else if s.len() == 1 {
        seq!['('] + rendered(s[0]) + seq![')']
    } else {
        seq!['('] + rendered(s[0]) + seq![')'] + sep + rendered_list(
            s.subrange(1, s.len() as int),
            sep,
        )
    }
}

pub proof fn lemma_rendered_list_push(s: Seq<Node>, sep: Seq<char>, x: Node)
    ensures
        rendered_list(s.push(x), sep) == (if s.len() == 0 {
            seq!['('] + rendered(x) + seq![')']
        } else {
            rendered_list(s, sep) + sep + (seq!['('] + rendered(x) + seq![')'])
        }),
    decreases s,
{
    let w = seq!['('] + rendered(x) + seq![')'];
    if s.len() == 0 {
        assert(s.push(x).len() == 1);
        assert(s.push(x)[0] == x);
        assert(rendered_list(s.push(x), sep) =~= w);
    } else {
        let sub = s.subrange(1, s.len() as int);
        lemma_rendered_list_push(sub, sep, x);
        assert(s.push(x).subrange(1, s.push(x).len() as int) =~= sub.push(x));
        assert(s.push(x)[0] == s[0]);
        if sub.len() == 0 {
            assert(rendered_list(s.push(x), sep) =~= rendered_list(s, sep) + sep + w);
        } else {
            assert(rendered_list(s.push(x), sep) =~= rendered_list(s, sep) + sep + w);
        }
    }
}

/// Appends the decimal rendering of `m`.
fn render_dec(m: u128, out: &mut String)
    ensures
        final(out)@ == old(out)@ + dec_of(m as nat),
    decreases m,
{
    let d = m % 10;
    let digit: &'static str = if d == 0 {
        "0"
    } else if d == 1 {
        "1"
    } else if d == 2 {
        "2"
    } else if d == 3 {
        "3"
    } else if d == 4 {
        "4"
    } else if d == 5 {
        "5"
    } else if d == 6 {
        "6"
    } else if d == 7 {
        "7"
    } else if d == 8 {
        "8"
    } else {
        "9"
    };
    proof {
        reveal_strlit("0");
        reveal_strlit("1");
        reveal_strlit("2");
        reveal_strlit("3");
        reveal_strlit("4");
        reveal_strlit("5");
        reveal_strlit("6");
        reveal_strlit("7");
        reveal_strlit("8");
        reveal_strlit("9");
        assert(digit@ =~= seq![digit_char((m % 10) as nat)]);
    }
    if m >= 10 {
        proof {
            assert(m / 10 < m) by (nonlinear_arith)
                requires
                    m >= 10,
            ;
        }
        render_dec(m / 10, out);
    }
    out.append(digit);
}

/// Appends the rendering of each member of `v` in parentheses, separated
/// by `sep`.
#[verifier::loop_isolation(false)]
fn render_children(v: &Vec<Expr>, sep: &str, out: &mut String)
    ensures
        final(out)@ == old(out)@ + rendered_list(nodes_of(v@), sep@),
    decreases size_seq(nodes_of(v@)), 1nat,
{
    let ghost ns = nodes_of(v@);
    let ghost base = out@;
    proof {
        lemma_nodes_of(v@);
        reveal_strlit("(");
        reveal_strlit(")");
        assert(ns.take(0) =~= Seq::<Node>::empty());
    }
    let n = v.len();
    let mut i: usize = 0;
    while i < n
        invariant
            i <= n,
            out@ == base + rendered_list(ns.take(i as int), sep@),
        decreases n - i,
    {
        proof {
            lemma_size_seq_elem(ns, i as int);
            assert(ns.take(i as int).push(ns[i as int]) =~= ns.take(i as int + 1));
            lemma_rendered_list_push(ns.take(i as int), sep@, ns[i as int]);
        }
        if i > 0 {
            out.append(sep);
        }
        out.append("(");
        render_node(&v[i], out);
        out.append(")");
        i = i + 1;
    }
    proof {
        assert(ns.take(n as int) =~= ns);
    }
}

/// Appends the rendering of one tree.
fn render_node(e: &Expr, out: &mut String)
    ensures
        final(out)@ == old(out)@ + rendered(e@),
    decreases size(e@), 0nat,
{
    match e {
        Expr::Literal(m) => {
            render_dec(*m, out);
        },
        Expr::Negation(inner) => {
            proof {
                reveal_strlit("-(");
                reveal_strlit(")");
                assert("-("@ =~= seq!['-', '(']);
                assert(")"@ =~= seq![')']);
            }
            out.append("-(");
            render_node(inner, out);
            out.append(")");
        },
        Expr::Sum(children) => {
            proof {
                reveal_strlit(" + ");
                assert(" + "@ =~= seq![' ', '+', ' ']);
            }
            render_children(children, " + ", out);
        },
        Expr::Product(children) => {
            proof {
                reveal_strlit(" * ");
                assert(" * "@ =~= seq![' ', '*', ' ']);
            }
            render_children(children, " * ", out);
        },
        Expr::Fraction(numerator, denominator) => {
            proof {
                reveal_strlit("(");
                reveal_strlit(")/(");
                reveal_strlit(")");
                assert("("@ =~= seq!['(']);
                assert(")/("@ =~= seq![')', '/', '(']);
                assert(")"@ =~= seq![')']);
            }
            out.append("(");
            render_node(numerator, out);
            out.append(")/(");
            render_node(denominator, out);
            out.append(")");
        },
        Expr::Constant(name) => {
            proof {
                reveal_strlit("0");
                reveal_strlit("\u{3c0}");
                reveal_strlit("e");
            }
            match name {
                ConstName::Zero => out.append("0"),
                ConstName::Pi => out.append("\u{3c0}"),
                ConstName::Euler => out.append("e"),
            }
        },
    }
}

impl Expr {
    /// Renders the tree as text: literals in decimal, constants by their
    /// symbols, and every child of a compound node in its own parentheses.
    pub fn render(&self) -> (r: String)
        ensures
            r@ == rendered(self@),
    {
        let mut out = String::new();
        render_node(self, &mut out);
        out
    }
}

} // verus!
