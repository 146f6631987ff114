//! The canonical (simplified) form of a tree, defined at the specification
//! level, together with the lemma library used to verify the simplifier.
//!
//! A sum is canonicalized in three steps: every child is canonicalized
//! first, then structurally cancellable pairs are removed by multiplicity
//! (`cancel`), then the remaining literals are folded into the first one by
//! exact integer addition (`fold_lits`), and finally degenerate sums are
//! collapsed (`collapse`).  Negations eliminate double negation
//! transitively.  Products and fractions have no canonical form here; the
//! simplifier reports them as unsupported.

use vstd::prelude::*;

use crate::expr::{ConstName, Node};

verus! {

/// Whether a tree is made only of the node kinds the simplifier supports:
/// literals, negations, sums and constants.
pub open spec fn supported(n: Node) -> bool
    decreases n,
{
    match n {
        Node::Literal { .. } => true,
        Node::Negation { inner } => supported(*inner),
        Node::Sum { children } => supported_seq(children),
        Node::Product { .. } => false,
        Node::Fraction { .. } => false,
        Node::Constant { .. } => true,
    }
}

pub open spec fn supported_seq(s: Seq<Node>) -> bool
    decreases s,
{
    s.len() == 0 || (supported(s[0]) && supported_seq(s.subrange(1, s.len() as int)))
}

/// The sum of every literal magnitude anywhere in a tree.  Simplification
/// never increases this total, so it bounds every exact addition the
/// simplifier performs.
pub open spec fn lit_total(n: Node) -> nat
    decreases n,
{
    match n {
        Node::Literal { magnitude } => magnitude,
        Node::Negation { inner } => lit_total(*inner),
        Node::Sum { children } => lit_total_seq(children),
        Node::Product { children } => lit_total_seq(children),
        Node::Fraction { numerator, denominator } => lit_total(*numerator) + lit_total(
            *denominator,
        ),
        Node::Constant { .. } => 0,
    }
}

pub open spec fn lit_total_seq(s: Seq<Node>) -> nat
    decreases s,
{
    if s.len() == 0 {
        0
    } else {
        lit_total(s[0]) + lit_total_seq(s.subrange(1, s.len() as int))
    }
}

/// The multiplicity of the tree `t` among the members of `s`, by structural
/// equality.
pub open spec fn count_in(s: Seq<Node>, t: Node) -> nat
    decreases s,
{
    if s.len() == 0 {
        0
    } else {
        (if s[0] == t {
            1nat
        } else {
            0nat
        }) + count_in(s.subrange(1, s.len() as int), t)
    }
}

/// The tree that cancels `t` in a sum: its negation, or its body if `t` is
/// itself a negation.
pub open spec fn partner(t: Node) -> Node {
    match t {
        Node::Negation { inner } => *inner,
        _ => Node::Negation { inner: Box::new(t) },
    }
}

/// How many occurrences of `t`'s structural-equality class are cancelled in
/// `s`: as many as its partner class can pair with.
pub open spec fn removed_count(s: Seq<Node>, t: Node) -> nat {
    let ct = count_in(s, t);
    let cp = count_in(s, partner(t));
    if ct <= cp {
        ct
    } else {
        cp
    }
}

/// Whether the member at position `i` survives cancellation.  The first
/// `removed_count` occurrences of each class are removed, so a member stays
/// exactly when enough equal members precede it.
pub open spec fn keep_at(s: Seq<Node>, i: int) -> bool {
    count_in(s.take(i), s[i]) >= removed_count(s, s[i])
}

pub open spec fn cancel_upto(s: Seq<Node>, n: int) -> Seq<Node>
    decreases n,
{
    if n <= 0 {
        Seq::empty()
    } else {
        cancel_upto(s, n - 1) + (if keep_at(s, n - 1) {
            seq![s[n - 1]]
        } else {
            Seq::empty()
        })
    }
}

/// The members of `s` that survive multiplicity-based cancellation, in
/// their original order.
pub open spec fn cancel(s: Seq<Node>) -> Seq<Node> {
    cancel_upto(s, s.len() as int)
}

/// The position of the first literal member of `s`, or `s.len()` if there
/// is none.
pub open spec fn first_lit(s: Seq<Node>) -> int
    decreases s,
{
    if s.len() == 0 {
        0
    } else if s[0] is Literal {
        0
    } else {
        1 + first_lit(s.subrange(1, s.len() as int))
    }
}

/// The exact sum of the magnitudes of the literal members of `s`.
pub open spec fn lit_sum(s: Seq<Node>) -> nat
    decreases s,
{
    if s.len() == 0 {
        0
    } else {
        (match s[0] {
            Node::Literal { magnitude } => magnitude,
            _ => 0nat,
        }) + lit_sum(s.subrange(1, s.len() as int))
    }
}

/// The non-literal members of `s`, in order.
pub open spec fn strip_lits(s: Seq<Node>) -> Seq<Node>
    decreases s,
{
    if s.len() == 0 {
        Seq::empty()
    } else {
        (if s[0] is Literal {
            Seq::empty()
        } else {
            seq![s[0]]
        }) + strip_lits(s.subrange(1, s.len() as int))
    }
}

/// Folds every literal member into the first one by exact addition; the
/// later literals are dropped and all other members keep their places.
pub open spec fn fold_lits(s: Seq<Node>) -> Seq<Node> {
    let fi = first_lit(s);
    if fi == s.len() {
        s
    } else {
        s.take(fi) + seq![Node::Literal { magnitude: lit_sum(s) }] + strip_lits(
            s.subrange(fi + 1, s.len() as int),
        )
    }
}

/// Collapses a degenerate child list: an empty sum becomes the zero
/// constant and a one-child sum becomes that child.
pub open spec fn collapse(s: Seq<Node>) -> Node {
    if s.len() == 0 {
        Node::Constant { name: ConstName::Zero }
    } else if s.len() == 1 {
        s[0]
    } else {
        Node::Sum { children: s }
    }
}

/// The canonical form of a tree.  Literals and constants are already
/// canonical; never are they numerically folded ahead of time, which keeps
/// later structural cancellation exact.  For unsupported kinds (products,
/// fractions) this function is left at the input; the simplifier reports
/// those instead of using this value.
pub open spec fn canon(n: Node) -> Node
    decreases n,
{
    match n {
        Node::Negation { inner } => {
            let s = canon(*inner);
            match s {
                Node::Negation { inner: j } => *j,
                _ => Node::Negation { inner: Box::new(s) },
            }
        },
        Node::Sum { children } => collapse(fold_lits(cancel(canon_seq(children)))),
        _ => n,
    }
}

pub open spec fn canon_seq(s: Seq<Node>) -> Seq<Node>
    decreases s,
{
    if s.len() == 0 {
        Seq::empty()
    } else {
        seq![canon(s[0])] + canon_seq(s.subrange(1, s.len() as int))
    }
}

pub proof fn lemma_supported_seq(s: Seq<Node>)
    ensures
        supported_seq(s) <==> (forall|i: int| 0 <= i < s.len() ==> supported(#[trigger] s[i])),
    decreases s,
{
    if s.len() > 0 {
        let sub = s.subrange(1, s.len() as int);
        lemma_supported_seq(sub);
        if supported_seq(s) {
            assert forall|i: int| 0 <= i < s.len() implies supported(#[trigger] s[i]) by {
                if i > 0 {
                    assert(sub[i - 1] == s[i]);
                }
            }
        }
        if forall|i: int| 0 <= i < s.len() ==> supported(#[trigger] s[i]) {
            assert forall|i: int| 0 <= i < sub.len() implies supported(#[trigger] sub[i]) by {
                assert(sub[i] == s[i + 1]);
            }
        }
    }
}

pub proof fn lemma_supported_seq_append(a: Seq<Node>, b: Seq<Node>)
    ensures
        supported_seq(a + b) <==> (supported_seq(a) && supported_seq(b)),
{
    lemma_supported_seq(a);
    lemma_supported_seq(b);
    lemma_supported_seq(a + b);
    assert(forall|i: int| 0 <= i < a.len() ==> (a + b)[i] == a[i]);
    assert(forall|i: int| 0 <= i < b.len() ==> (a + b)[a.len() + i] == b[i]);
    if supported_seq(a) && supported_seq(b) {
        assert forall|i: int| 0 <= i < (a + b).len() implies supported(#[trigger] (a + b)[i]) by {
            if i < a.len() {
                assert((a + b)[i] == a[i]);
            } else {
                assert((a + b)[i] == b[i - a.len()]);
            }
        }
    }
}

pub proof fn lemma_lit_total_seq_append(a: Seq<Node>, b: Seq<Node>)
    ensures
        lit_total_seq(a + b) == lit_total_seq(a) + lit_total_seq(b),
    decreases a,
{
    if a.len() == 0 {
        assert(a + b =~= b);
    } else {
        let sub = a.subrange(1, a.len() as int);
        lemma_lit_total_seq_append(sub, b);
        assert((a + b).subrange(1, (a + b).len() as int) =~= sub + b);
        assert((a + b)[0] == a[0]);
    }
}

pub proof fn lemma_lit_total_seq_elem(s: Seq<Node>, i: int)
    requires
        0 <= i < s.len(),
    ensures
        lit_total(s[i]) <= lit_total_seq(s),
    decreases s,
{
    if i > 0 {
        let sub = s.subrange(1, s.len() as int);
        lemma_lit_total_seq_elem(sub, i - 1);
        assert(sub[i - 1] == s[i]);
    }
}

pub proof fn lemma_lit_total_seq_take_step(s: Seq<Node>, i: int)
    requires
        0 <= i < s.len(),
    ensures
        lit_total_seq(s.take(i + 1)) == lit_total_seq(s.take(i)) + lit_total(s[i]),
{
    assert(s.take(i + 1) =~= s.take(i) + seq![s[i]]);
    lemma_lit_total_seq_append(s.take(i), seq![s[i]]);
    lemma_singleton(s[i]);
}

pub proof fn lemma_lit_total_seq_take_le(s: Seq<Node>, j: int)
    requires
        0 <= j <= s.len(),
    ensures
        lit_total_seq(s.take(j)) <= lit_total_seq(s),
{
    assert(s =~= s.take(j) + s.subrange(j, s.len() as int));
    lemma_lit_total_seq_append(s.take(j), s.subrange(j, s.len() as int));
}

pub proof fn lemma_count_in_append(a: Seq<Node>, b: Seq<Node>, t: Node)
    ensures
        count_in(a + b, t) == count_in(a, t) + count_in(b, t),
    decreases a,
{
    if a.len() == 0 {
        assert(a + b =~= b);
    } else {
        let sub = a.subrange(1, a.len() as int);
        lemma_count_in_append(sub, b, t);
        assert((a + b).subrange(1, (a + b).len() as int) =~= sub + b);
        assert((a + b)[0] == a[0]);
    }
}

pub proof fn lemma_count_in_take_step(s: Seq<Node>, i: int, t: Node)
    requires
        0 <= i < s.len(),
    ensures
        count_in(s.take(i + 1), t) == count_in(s.take(i), t) + (if s[i] == t {
            1nat
        } else {
            0nat
        }),
{
    assert(s.take(i + 1) =~= s.take(i) + seq![s[i]]);
    lemma_count_in_append(s.take(i), seq![s[i]], t);
    assert(count_in(seq![s[i]], t) == (if s[i] == t {
        1nat
    } else {
        0nat
    })) by {
        let one = seq![s[i]];
        assert(one.subrange(1, 1) =~= Seq::<Node>::empty());
        assert(count_in(one.subrange(1, 1), t) == 0);
        assert(one[0] == s[i]);
    }
}

pub proof fn lemma_lit_sum_append(a: Seq<Node>, b: Seq<Node>)
    ensures
        lit_sum(a + b) == lit_sum(a) + lit_sum(b),
    decreases a,
{
    if a.len() == 0 {
        assert(a + b =~= b);
    } else {
        let sub = a.subrange(1, a.len() as int);
        lemma_lit_sum_append(sub, b);
        assert((a + b).subrange(1, (a + b).len() as int) =~= sub + b);
        assert((a + b)[0] == a[0]);
    }
}

pub proof fn lemma_strip_lits_append(a: Seq<Node>, b: Seq<Node>)
    ensures
        strip_lits(a + b) == strip_lits(a) + strip_lits(b),
    decreases a,
{
    if a.len() == 0 {
        assert(a + b =~= b);
        assert(strip_lits(a) + strip_lits(b) =~= strip_lits(b));
    } else {
        let sub = a.subrange(1, a.len() as int);
        lemma_strip_lits_append(sub, b);
        assert((a + b).subrange(1, (a + b).len() as int) =~= sub + b);
        assert((a + b)[0] == a[0]);
        assert(strip_lits(a + b) =~= strip_lits(a) + strip_lits(b));
    }
}

pub proof fn lemma_first_lit(s: Seq<Node>)
    ensures
        0 <= first_lit(s) <= s.len(),
        first_lit(s) < s.len() ==> s[first_lit(s)] is Literal,
        forall|i: int| 0 <= i < first_lit(s) ==> !(#[trigger] s[i] is Literal),
    decreases s,
{
    if s.len() > 0 && !(s[0] is Literal) {
        let sub = s.subrange(1, s.len() as int);
        lemma_first_lit(sub);
        assert forall|i: int| 0 <= i < first_lit(s) implies !(#[trigger] s[i] is Literal) by {
            if i > 0 {
                assert(sub[i - 1] == s[i]);
            }
        }
    }
}

pub proof fn lemma_singleton(x: Node)
    ensures
        lit_total_seq(seq![x]) == lit_total(x),
        supported_seq(seq![x]) <==> supported(x),
        lit_sum(seq![x]) == (match x {
            Node::Literal { magnitude } => magnitude,
            _ => 0nat,
        }),
        strip_lits(seq![x]) == (if x is Literal {
            Seq::<Node>::empty()
        } else {
            seq![x]
        }),
{
    let one = seq![x];
    assert(one.subrange(1, 1) =~= Seq::<Node>::empty());
    assert(one[0] == x);
    assert(supported_seq(one.subrange(1, 1)));
    assert(lit_total_seq(one.subrange(1, 1)) == 0);
    assert(lit_sum(one.subrange(1, 1)) == 0);
    assert(strip_lits(one.subrange(1, 1)) =~= Seq::<Node>::empty());
    if x is Literal {
        assert(strip_lits(one) =~= Seq::<Node>::empty());
    } else {
        assert(strip_lits(one) =~= one);
    }
}

pub proof fn lemma_lit_sum_le_lit_total(s: Seq<Node>)
    ensures
        lit_sum(s) <= lit_total_seq(s),
    decreases s,
{
    if s.len() > 0 {
        lemma_lit_sum_le_lit_total(s.subrange(1, s.len() as int));
        assert((match s[0] {
            Node::Literal { magnitude } => magnitude,
            _ => 0nat,
        }) <= lit_total(s[0]));
    }
}

/// The literal magnitudes of a child list, plus everything nested in its
/// non-literal members, account for its whole literal total.
pub proof fn lemma_lit_decomp(s: Seq<Node>)
    ensures
        lit_total_seq(s) == lit_sum(s) + lit_total_seq(strip_lits(s)),
    decreases s,
{
    if s.len() > 0 {
        let sub = s.subrange(1, s.len() as int);
        lemma_lit_decomp(sub);
        lemma_singleton(s[0]);
        if s[0] is Literal {
            lemma_lit_total_seq_append(Seq::empty(), strip_lits(sub));
            assert(Seq::<Node>::empty() + strip_lits(sub) =~= strip_lits(sub));
            assert(strip_lits(s) == strip_lits(sub));
        } else {
            lemma_lit_total_seq_append(seq![s[0]], strip_lits(sub));
        }
    }
}

pub proof fn lemma_lit_sum_take_le(s: Seq<Node>, j: int)
    requires
        0 <= j <= s.len(),
    ensures
        lit_sum(s.take(j)) <= lit_sum(s),
{
    assert(s =~= s.take(j) + s.subrange(j, s.len() as int));
    lemma_lit_sum_append(s.take(j), s.subrange(j, s.len() as int));
}

pub proof fn lemma_lit_sum_take_step(s: Seq<Node>, i: int)
    requires
        0 <= i < s.len(),
    ensures
        lit_sum(s.take(i + 1)) == lit_sum(s.take(i)) + (match s[i] {
            Node::Literal { magnitude } => magnitude,
            _ => 0nat,
        }),
{
    assert(s.take(i + 1) =~= s.take(i) + seq![s[i]]);
    lemma_lit_sum_append(s.take(i), seq![s[i]]);
    lemma_singleton(s[i]);
}

pub proof fn lemma_cancel_upto_lit_total(s: Seq<Node>, n: int)
    requires
        0 <= n <= s.len(),
    ensures
        lit_total_seq(cancel_upto(s, n)) <= lit_total_seq(s.take(n)),
    decreases n,
{
    if n > 0 {
        lemma_cancel_upto_lit_total(s, n - 1);
        assert(s.take(n) =~= s.take(n - 1) + seq![s[n - 1]]);
        lemma_lit_total_seq_append(s.take(n - 1), seq![s[n - 1]]);
        lemma_singleton(s[n - 1]);
        if keep_at(s, n - 1) {
            lemma_lit_total_seq_append(cancel_upto(s, n - 1), seq![s[n - 1]]);
        } else {
            lemma_lit_total_seq_append(cancel_upto(s, n - 1), Seq::empty());
            assert(cancel_upto(s, n - 1) + Seq::<Node>::empty() =~= cancel_upto(s, n - 1));
        }
    }
}

pub proof fn lemma_cancel_upto_supported(s: Seq<Node>, n: int)
    requires
        0 <= n <= s.len(),
        forall|i: int| 0 <= i < s.len() ==> supported(#[trigger] s[i]),
    ensures
        supported_seq(cancel_upto(s, n)),
    decreases n,
{
    if n > 0 {
        lemma_cancel_upto_supported(s, n - 1);
        lemma_singleton(s[n - 1]);
        if keep_at(s, n - 1) {
            lemma_supported_seq_append(cancel_upto(s, n - 1), seq![s[n - 1]]);
        } else {
            assert(cancel_upto(s, n) =~= cancel_upto(s, n - 1));
        }
    }
}

pub proof fn lemma_strip_lits_supported(s: Seq<Node>)
    requires
        supported_seq(s),
    ensures
        supported_seq(strip_lits(s)),
    decreases s,
{
    if s.len() > 0 {
        let sub = s.subrange(1, s.len() as int);
        lemma_strip_lits_supported(sub);
        lemma_singleton(s[0]);
        if s[0] is Literal {
            assert(strip_lits(s) =~= strip_lits(sub));
        } else {
            lemma_supported_seq_append(seq![s[0]], strip_lits(sub));
        }
    }
}

pub proof fn lemma_fold_lits_lit_total(s: Seq<Node>)
    ensures
        lit_total_seq(fold_lits(s)) <= lit_total_seq(s),
{
    lemma_first_lit(s);
    let fi = first_lit(s);
    if fi < s.len() {
        let pre = s.take(fi);
        let mid = s.subrange(fi, s.len() as int);
        let post = s.subrange(fi + 1, s.len() as int);
        assert(s =~= pre + mid);
        assert(mid =~= seq![s[fi]] + post);
        lemma_lit_total_seq_append(pre, mid);
        lemma_lit_total_seq_append(seq![s[fi]], post);
        lemma_singleton(s[fi]);
        lemma_lit_decomp(post);
        // the literal magnitudes of s are those of the member at fi and of post
        lemma_lit_sum_append(pre, mid);
        lemma_lit_sum_append(seq![s[fi]], post);
        assert(lit_sum(pre) == 0) by {
            lemma_lit_sum_no_lits(pre);
        }
        let folded = fold_lits(s);
        lemma_lit_total_seq_append(pre + seq![Node::Literal { magnitude: lit_sum(s) }], strip_lits(post));
        lemma_lit_total_seq_append(pre, seq![Node::Literal { magnitude: lit_sum(s) }]);
        lemma_singleton(Node::Literal { magnitude: lit_sum(s) });
    }
}

pub proof fn lemma_lit_sum_no_lits(s: Seq<Node>)
    requires
        forall|i: int| 0 <= i < s.len() ==> !(#[trigger] s[i] is Literal),
    ensures
        lit_sum(s) == 0,
    decreases s,
{
    if s.len() > 0 {
        let sub = s.subrange(1, s.len() as int);
        assert forall|i: int| 0 <= i < sub.len() implies !(#[trigger] sub[i] is Literal) by {
            assert(sub[i] == s[i + 1]);
        }
        lemma_lit_sum_no_lits(sub);
    }
}

pub proof fn lemma_fold_lits_supported(s: Seq<Node>)
    requires
        supported_seq(s),
    ensures
        supported_seq(fold_lits(s)),
{
    lemma_first_lit(s);
    lemma_supported_seq(s);
    let fi = first_lit(s);
    if fi < s.len() {
        let pre = s.take(fi);
        let post = s.subrange(fi + 1, s.len() as int);
        lemma_supported_seq(pre);
        lemma_supported_seq(post);
        lemma_strip_lits_supported(post);
        lemma_singleton(Node::Literal { magnitude: lit_sum(s) });
        lemma_supported_seq_append(pre, seq![Node::Literal { magnitude: lit_sum(s) }]);
        lemma_supported_seq_append(
            pre + seq![Node::Literal { magnitude: lit_sum(s) }],
            strip_lits(post),
        );
    }
}

/// Canonicalization stays within the supported kinds and never increases
/// the total of literal magnitudes, so exact folding over machine integers
/// stays bounded by the input's total.
pub proof fn lemma_canon_props(n: Node)
    requires
        supported(n),
    ensures
        supported(canon(n)),
        lit_total(canon(n)) <= lit_total(n),
    decreases n,
{
    match n {
        Node::Negation { inner } => {
            lemma_canon_props(*inner);
        },
        Node::Sum { children } => {
            lemma_canon_seq_props(children);
            let ss = canon_seq(children);
            let kept = cancel(ss);
            assert(ss.take(ss.len() as int) =~= ss);
            lemma_cancel_upto_lit_total(ss, ss.len() as int);
            lemma_supported_seq(ss);
            lemma_cancel_upto_supported(ss, ss.len() as int);
            lemma_fold_lits_lit_total(kept);
            lemma_fold_lits_supported(kept);
            let folded = fold_lits(kept);
            if folded.len() == 1 {
                lemma_supported_seq(folded);
                lemma_lit_total_seq_elem(folded, 0);
            }
        },
        _ => {},
    }
}

pub proof fn lemma_canon_seq_props(s: Seq<Node>)
    requires
        supported_seq(s),
    ensures
        supported_seq(canon_seq(s)),
        lit_total_seq(canon_seq(s)) <= lit_total_seq(s),
        canon_seq(s).len() == s.len(),
    decreases s,
{
    if s.len() > 0 {
        let sub = s.subrange(1, s.len() as int);
        lemma_canon_props(s[0]);
        lemma_canon_seq_props(sub);
        lemma_singleton(canon(s[0]));
        lemma_supported_seq_append(seq![canon(s[0])], canon_seq(sub));
        lemma_lit_total_seq_append(seq![canon(s[0])], canon_seq(sub));
    }
}

/// `canon_seq` maps `canon` over a child list position by position.
pub proof fn lemma_canon_seq_index(s: Seq<Node>)
    ensures
        canon_seq(s).len() == s.len(),
        forall|i: int| 0 <= i < s.len() ==> canon_seq(s)[i] == canon(#[trigger] s[i]),
    decreases s,
{
    if s.len() > 0 {
        let sub = s.subrange(1, s.len() as int);
        lemma_canon_seq_index(sub);
        assert forall|i: int| 0 <= i < s.len() implies canon_seq(s)[i] == canon(#[trigger] s[i]) by {
            if i > 0 {
                assert(sub[i - 1] == s[i]);
                assert(canon_seq(s)[i] == canon_seq(sub)[i - 1]);
            }
        }
    }
}

/// No member of the child list can cancel against another: no member's
/// partner class is present at all.
pub open spec fn no_cancellable_pair(s: Seq<Node>) -> bool {
    forall|i: int| 0 <= i < s.len() ==> count_in(s, partner(#[trigger] s[i])) == 0
}

/// At most one member of the child list is a literal.
pub open spec fn at_most_one_literal(s: Seq<Node>) -> bool {
    forall|i: int, j: int|
        0 <= i < j < s.len() ==> !(#[trigger] s[i] is Literal) || !(#[trigger] s[j] is Literal)
}

/// Whether a tree is in canonical form: no double negation, no degenerate
/// sum, no cancellable pair and no unfolded run of literals anywhere.
/// Unsupported kinds are never canonical.
pub open spec fn is_canonical(n: Node) -> bool
    decreases n,
{
    match n {
        Node::Literal { .. } => true,
        Node::Negation { inner } => is_canonical(*inner) && !(*inner is Negation),
        Node::Sum { children } => all_canonical(children) && children.len() >= 2
            && no_cancellable_pair(children) && at_most_one_literal(children),
        Node::Product { .. } => false,
        Node::Fraction { .. } => false,
        Node::Constant { .. } => true,
    }
}

pub open spec fn all_canonical(s: Seq<Node>) -> bool
    decreases s,
{
    s.len() == 0 || (is_canonical(s[0]) && all_canonical(s.subrange(1, s.len() as int)))
}

/// When nothing can cancel, cancellation keeps every member.
pub proof fn lemma_cancel_upto_id(s: Seq<Node>, n: int)
    requires
        0 <= n <= s.len(),
        no_cancellable_pair(s),
    ensures
        cancel_upto(s, n) == s.take(n),
    decreases n,
{
    if n > 0 {
        lemma_cancel_upto_id(s, n - 1);
        assert(count_in(s, partner(s[n - 1])) == 0);
        assert(keep_at(s, n - 1));
        assert(cancel_upto(s, n) =~= s.take(n - 1) + seq![s[n - 1]]);
        assert(s.take(n) =~= s.take(n - 1) + seq![s[n - 1]]);
    } else {
        assert(cancel_upto(s, 0) =~= s.take(0));
    }
}

pub proof fn lemma_strip_lits_id(s: Seq<Node>)
    requires
        forall|i: int| 0 <= i < s.len() ==> !(#[trigger] s[i] is Literal),
    ensures
        strip_lits(s) == s,
    decreases s,
{
    if s.len() > 0 {
        let sub = s.subrange(1, s.len() as int);
        assert forall|i: int| 0 <= i < sub.len() implies !(#[trigger] sub[i] is Literal) by {
            assert(sub[i] == s[i + 1]);
        }
        lemma_strip_lits_id(sub);
        assert(strip_lits(s) =~= s);
    }
}

/// With at most one literal present, folding changes nothing.
pub proof fn lemma_fold_lits_id(s: Seq<Node>)
    requires
        at_most_one_literal(s),
    ensures
        fold_lits(s) == s,
{
    lemma_first_lit(s);
    let fi = first_lit(s);
    if fi < s.len() {
        let pre = s.take(fi);
        let post = s.subrange(fi + 1, s.len() as int);
        assert forall|i: int| 0 <= i < post.len() implies !(#[trigger] post[i] is Literal) by {
            assert(post[i] == s[fi + 1 + i]);
            assert(s[fi] is Literal);
        }
        lemma_strip_lits_id(post);
        // the only literal contribution to the sum is the member at fi
        assert(s =~= pre + (seq![s[fi]] + post));
        lemma_lit_sum_append(pre, seq![s[fi]] + post);
        lemma_lit_sum_append(seq![s[fi]], post);
        lemma_lit_sum_no_lits(pre);
        lemma_lit_sum_no_lits(post);
        lemma_singleton(s[fi]);
        assert(lit_sum(s) == s[fi]->Literal_magnitude);
        assert((Node::Literal { magnitude: lit_sum(s) }) == s[fi]);
        assert(fold_lits(s) =~= pre + seq![s[fi]] + post);
        assert(pre + seq![s[fi]] + post =~= s);
    }
}

/// Every member that survives cancellation was a member before it.
pub proof fn lemma_cancel_upto_all(s: Seq<Node>, n: int, p: spec_fn(Node) -> bool)
    requires
        0 <= n <= s.len(),
        forall|i: int| 0 <= i < s.len() ==> p(#[trigger] s[i]),
    ensures
        forall|j: int| 0 <= j < cancel_upto(s, n).len() ==> p(#[trigger] cancel_upto(s, n)[j]),
    decreases n,
{
    if n > 0 {
        lemma_cancel_upto_all(s, n - 1, p);
        assert forall|j: int| 0 <= j < cancel_upto(s, n).len() implies p(
            #[trigger] cancel_upto(s, n)[j],
        ) by {
            if j < cancel_upto(s, n - 1).len() {
                assert(cancel_upto(s, n)[j] == cancel_upto(s, n - 1)[j]);
            } else {
                assert(cancel_upto(s, n)[j] == s[n - 1]);
            }
        }
    }
}

pub proof fn lemma_strip_lits_all(s: Seq<Node>, p: spec_fn(Node) -> bool)
    requires
        forall|i: int| 0 <= i < s.len() ==> p(#[trigger] s[i]),
    ensures
        forall|j: int| 0 <= j < strip_lits(s).len() ==> p(#[trigger] strip_lits(s)[j]),
    decreases s,
{
    if s.len() > 0 {
        let sub = s.subrange(1, s.len() as int);
        assert forall|i: int| 0 <= i < sub.len() implies p(#[trigger] sub[i]) by {
            assert(sub[i] == s[i + 1]);
        }
        lemma_strip_lits_all(sub, p);
        assert forall|j: int| 0 <= j < strip_lits(s).len() implies p(#[trigger] strip_lits(s)[j]) by {
            if s[0] is Literal {
                assert(strip_lits(s) =~= strip_lits(sub));
            } else {
                if j == 0 {
                    assert(strip_lits(s)[0] == s[0]);
                } else {
                    assert(strip_lits(s)[j] == strip_lits(sub)[j - 1]);
                }
            }
        }
    }
}

/// Every member of a folded child list satisfies `p` if the members before
/// folding did and the folded literal does.
pub proof fn lemma_fold_lits_all(s: Seq<Node>, p: spec_fn(Node) -> bool)
    requires
        forall|i: int| 0 <= i < s.len() ==> p(#[trigger] s[i]),
        p(Node::Literal { magnitude: lit_sum(s) }),
    ensures
        forall|j: int| 0 <= j < fold_lits(s).len() ==> p(#[trigger] fold_lits(s)[j]),
{
    lemma_first_lit(s);
    let fi = first_lit(s);
    if fi < s.len() {
        let post = s.subrange(fi + 1, s.len() as int);
        assert forall|i: int| 0 <= i < post.len() implies p(#[trigger] post[i]) by {
            assert(post[i] == s[fi + 1 + i]);
        }
        lemma_strip_lits_all(post, p);
        assert forall|j: int| 0 <= j < fold_lits(s).len() implies p(#[trigger] fold_lits(s)[j]) by {
            let pre = s.take(fi);
            let mid = seq![Node::Literal { magnitude: lit_sum(s) }];
            if j < fi {
                assert(fold_lits(s)[j] == s[j]);
            } else if j == fi {
                assert(fold_lits(s)[j] == mid[0]);
            } else {
                assert(fold_lits(s)[j] == strip_lits(post)[j - fi - 1]);
            }
        }
    }
}

/// Canonicalization never leaves a double negation at the root: whenever
/// the canonical form is a negation, its body is not one.
pub proof fn lemma_canon_no_top_double_neg(n: Node)
    requires
        supported(n),
    ensures
        canon(n) matches Node::Negation { inner } ==> !(*inner is Negation),
    decreases n,
{
    let p = |x: Node|
        match x {
            Node::Negation { inner } => !(*inner is Negation),
            _ => true,
        };
    match n {
        Node::Negation { inner } => {
            lemma_canon_no_top_double_neg(*inner);
        },
        Node::Sum { children } => {
            lemma_supported_seq(children);
            lemma_canon_seq_index(children);
            let ss = canon_seq(children);
            assert forall|i: int| 0 <= i < ss.len() implies p(#[trigger] ss[i]) by {
                assert(ss[i] == canon(children[i]));
                lemma_canon_no_top_double_neg(children[i]);
            }
            lemma_cancel_upto_all(ss, ss.len() as int, p);
            let kept = cancel(ss);
            assert(p(Node::Literal { magnitude: lit_sum(kept) }));
            lemma_fold_lits_all(kept, p);
            let folded = fold_lits(kept);
            if folded.len() == 1 {
                assert(p(folded[0]));
            }
        },
        _ => {},
    }
}

} // verus!
