//! General laws of the simplifier, stated and proved over the model.

use vstd::prelude::*;

use crate::canonical::{
    all_canonical, cancel, cancel_upto, canon, canon_seq, collapse, count_in, fold_lits,
    is_canonical, keep_at, lemma_canon_no_top_double_neg, lemma_canon_seq_index,
    lemma_cancel_upto_id, lemma_count_in_append, lemma_count_in_take_step, lemma_fold_lits_id,
    partner, removed_count, supported,
};
use crate::expr::{ConstName, Node};

verus! {

/// Canonicalization is the identity on trees that are already canonical.
pub proof fn lemma_canon_of_canonical(n: Node)
    requires
        is_canonical(n),
    ensures
        canon(n) == n,
    decreases n,
{
    match n {
        Node::Negation { inner } => {
            lemma_canon_of_canonical(*inner);
        },
        Node::Sum { children } => {
            lemma_canon_seq_of_canonical(children);
            lemma_cancel_upto_id(children, children.len() as int);
            assert(children.take(children.len() as int) =~= children);
            lemma_fold_lits_id(children);
        },
        _ => {},
    }
}

pub proof fn lemma_canon_seq_of_canonical(s: Seq<Node>)
    requires
        all_canonical(s),
    ensures
        canon_seq(s) == s,
    decreases s,
{
    if s.len() > 0 {
        lemma_canon_of_canonical(s[0]);
        lemma_canon_seq_of_canonical(s.subrange(1, s.len() as int));
        assert(canon_seq(s) =~= s);
    }
}

/// Simplifying twice is the same as simplifying once, whenever one round
/// of simplification reaches a canonical tree.  One round can fall short
/// of canonical form: folding the literals of a sum can mint a literal
/// whose negation survived cancellation, as in `1 + 2 + (-3)`, and such a
/// pair only cancels on the next round.  Those inputs are excluded by the
/// second precondition.
pub proof fn lemma_simplify_idempotent(e: Node)
    requires
        supported(e),
        is_canonical(canon(e)),
    ensures
        canon(canon(e)) == canon(e),
{
    lemma_canon_of_canonical(canon(e));
}

proof fn lemma_cancel_upto_count(s: Seq<Node>, n: int, t: Node)
    requires
        0 <= n <= s.len(),
    ensures
        count_in(cancel_upto(s, n), t) + min_nat(
            count_in(s.take(n), t),
            removed_count(s, t),
        ) == count_in(s.take(n), t),
    decreases n,
{
    if n == 0 {
        assert(s.take(0) =~= Seq::<Node>::empty());
        assert(cancel_upto(s, 0) == Seq::<Node>::empty());
    } else {
        lemma_cancel_upto_count(s, n - 1, t);
        lemma_count_in_take_step(s, n - 1, t);
        let inc: Seq<Node> = if keep_at(s, n - 1) {
            seq![s[n - 1]]
        } else {
            Seq::empty()
        };
        lemma_count_in_append(cancel_upto(s, n - 1), inc, t);
        if keep_at(s, n - 1) {
            assert(inc.subrange(1, 1) =~= Seq::<Node>::empty());
            assert(count_in(inc.subrange(1, 1), t) == 0);
            assert(inc[0] == s[n - 1]);
            assert(count_in(inc, t) == (if s[n - 1] == t {
                1nat
            } else {
                0nat
            }));
        } else {
            assert(count_in(inc, t) == 0);
        }
        if s[n - 1] == t {
            assert(removed_count(s, s[n - 1]) == removed_count(s, t));
        }
    }
}

spec fn min_nat(a: nat, b: nat) -> nat {
    if a <= b {
        a
    } else {
        b
    }
}

/// Cancellation is symmetric and count-based: for every tree `t`, exactly
/// `min(count(t), count(partner(t)))` occurrences of `t` are removed from a
/// sum's child list, wherever in the list they stand.  Which members
/// survive therefore depends only on multiplicities, never on positions,
/// which is what makes cancellation order-independent and correct under
/// repeated operands.
pub proof fn lemma_cancellation_is_count_based(s: Seq<Node>, t: Node)
    ensures
        count_in(cancel(s), t) + removed_count(s, t) == count_in(s, t),
{
    lemma_cancel_upto_count(s, s.len() as int, t);
    assert(s.take(s.len() as int) =~= s);
    assert(removed_count(s, t) <= count_in(s, t));
}

/// After cancellation no pair is left: a surviving tree and its partner
/// are never both present, for any tree that is not a double negation.
pub proof fn lemma_no_pair_survives(s: Seq<Node>, t: Node)
    requires
        partner(partner(t)) == t,
    ensures
        count_in(cancel(s), t) == 0 || count_in(cancel(s), partner(t)) == 0,
{
    lemma_cancellation_is_count_based(s, t);
    lemma_cancellation_is_count_based(s, partner(t));
}

/// Double negation is eliminated transitively: simplifying a doubly
/// negated tree gives exactly what simplifying the tree itself gives.
pub proof fn lemma_double_negation_eliminated(e: Node)
    requires
        supported(e),
    ensures
        canon(
            Node::Negation { inner: Box::new(Node::Negation { inner: Box::new(e) }) },
        ) == canon(e),
{
    lemma_canon_no_top_double_neg(e);
    let ne = Node::Negation { inner: Box::new(e) };
    let c = canon(e);
    match c {
        Node::Negation { inner: j } => {
            assert(canon(ne) == *j);
            assert(!(*j is Negation));
            assert(canon(Node::Negation { inner: Box::new(ne) }) == (Node::Negation {
                inner: Box::new(*j),
            }));
            assert((Node::Negation { inner: Box::new(*j) }) == c);
        },
        _ => {
            assert(canon(ne) == (Node::Negation { inner: Box::new(c) }));
            assert(canon(Node::Negation { inner: Box::new(ne) }) == c);
        },
    }
}

/// Cancellation is multiplicity-based, so repeated operands cancel in
/// full: for every supported tree `e`, the sum `e + e + (-e) + (-e)`
/// simplifies to the zero constant.
pub proof fn lemma_repeated_operands_cancel(e: Node)
    requires
        supported(e),
    ensures
        canon(
            Node::Sum {
                children: seq![
                    e,
                    e,
                    Node::Negation { inner: Box::new(e) },
                    Node::Negation { inner: Box::new(e) },
                ],
            },
        ) == (Node::Constant { name: ConstName::Zero }),
{
    let ne = Node::Negation { inner: Box::new(e) };
    let s = seq![e, e, ne, ne];
    lemma_canon_seq_index(s);
    let c = canon(e);
    let cn = canon(ne);
    let ss = canon_seq(s);
    assert(ss.len() == 4);
    assert(ss[0] == c && ss[1] == c && ss[2] == cn && ss[3] == cn);
    lemma_canon_no_top_double_neg(e);
    // the two canonical members are exact partners of each other
    match c {
        Node::Negation { inner: j } => {
            assert(cn == *j);
            assert(partner(c) == cn);
            assert(!(*j is Negation));
            assert(partner(cn) == (Node::Negation { inner: j }));
            assert(partner(cn) == c);
            assert(c != cn);
        },
        _ => {
            assert(cn == (Node::Negation { inner: Box::new(c) }));
            assert(partner(c) == cn);
            assert(partner(cn) == c);
            assert(c != cn);
        },
    }
    // each class has multiplicity two, so both are removed in full
    assert(ss.take(0) =~= Seq::<Node>::empty());
    lemma_count_in_take_step(ss, 0, c);
    lemma_count_in_take_step(ss, 1, c);
    lemma_count_in_take_step(ss, 2, c);
    lemma_count_in_take_step(ss, 3, c);
    lemma_count_in_take_step(ss, 0, cn);
    lemma_count_in_take_step(ss, 1, cn);
    lemma_count_in_take_step(ss, 2, cn);
    lemma_count_in_take_step(ss, 3, cn);
    assert(ss.take(4) =~= ss);
    assert(count_in(ss, c) == 2);
    assert(count_in(ss, cn) == 2);
    assert(removed_count(ss, ss[0]) == 2);
    assert(removed_count(ss, ss[2]) == 2);
    assert(!keep_at(ss, 0));
    assert(!keep_at(ss, 1));
    assert(!keep_at(ss, 2));
    assert(!keep_at(ss, 3));
    assert(cancel_upto(ss, 0) == Seq::<Node>::empty());
    assert(cancel_upto(ss, 1) =~= Seq::<Node>::empty());
    assert(cancel_upto(ss, 2) =~= Seq::<Node>::empty());
    assert(cancel_upto(ss, 3) =~= Seq::<Node>::empty());
    assert(cancel_upto(ss, 4) =~= Seq::<Node>::empty());
    assert(cancel(ss) == Seq::<Node>::empty());
    assert(fold_lits(Seq::<Node>::empty()) == Seq::<Node>::empty());
    assert(collapse(Seq::<Node>::empty()) == (Node::Constant {
        name: ConstName::Zero,
    }));
}

} // verus!
