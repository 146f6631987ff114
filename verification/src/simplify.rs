//! The simplifier: reduces an owned tree to its canonical form.

use vstd::prelude::*;

use crate::canonical::{
    cancel, cancel_upto, canon, canon_seq, count_in, first_lit, fold_lits, keep_at,
    lemma_canon_seq_index, lemma_canon_seq_props, lemma_cancel_upto_lit_total,
    lemma_count_in_take_step, lemma_first_lit, lemma_lit_sum_le_lit_total, lemma_lit_sum_take_le,
    lemma_lit_sum_take_step, lemma_lit_total_seq_elem, lemma_lit_total_seq_take_le,
    lemma_lit_total_seq_take_step, lemma_singleton, lemma_strip_lits_append, lemma_supported_seq,
    lit_sum, lit_total, lit_total_seq, partner, removed_count, strip_lits, supported,
    supported_seq,
};
use crate::expr::{
    eq_expr, lemma_nodes_of, lemma_nodes_of_push, lemma_nodes_of_subrange, lemma_size_seq_elem,
    node_of, nodes_of, size, size_seq, ConstName, Expr, Node,
};

verus! {

/// Why a simplification request was refused.
///
/// Products and fractions have no canonical form in this algebra; asking to
/// simplify a tree that contains one signals this condition explicitly
/// rather than silently returning the input, which would falsely imply the
/// result is canonical.
#[derive(Clone, Copy, Debug, PartialEq, Eq, Structural)]
pub enum SimplifyError {
    Unsupported,
}

/// Sums the literal magnitudes of the members of `v`, or reports that the
/// total does not fit the literal type.
#[verifier::loop_isolation(false)]
fn literal_total_children(v: &Vec<Expr>) -> (r: Option<u128>)
    ensures
        r is Some <==> lit_total_seq(nodes_of(v@)) <= u128::MAX,
        r matches Some(t) ==> t == lit_total_seq(nodes_of(v@)),
    decreases size_seq(nodes_of(v@)), 1nat,
{
    let ghost ns = nodes_of(v@);
    proof {
        lemma_nodes_of(v@);
        assert(ns.take(0) =~= Seq::<Node>::empty());
    }
    let n = v.len();
    let mut total: u128 = 0;
    let mut i: usize = 0;
    while i < n
        invariant
            i <= n,
            total == lit_total_seq(ns.take(i as int)),
        decreases n - i,
    {
        proof {
            lemma_size_seq_elem(ns, i as int);
            lemma_lit_total_seq_take_step(ns, i as int);
        }
        match v[i].literal_total() {
            Some(t) => {
                match total.checked_add(t) {
                    Some(sum) => {
                        total = sum;
                    },
                    None => {
                        proof {
                            lemma_lit_total_seq_take_le(ns, i as int + 1);
                        }
                        return None;
                    },
                }
            },
            None => {
                proof {
                    lemma_lit_total_seq_elem(ns, i as int);
                }
                return None;
            },
        }
        i = i + 1;
    }
    proof {
        assert(ns.take(n as int) =~= ns);
    }
    Some(total)
}

/// Counts the members of `v` before position `hi` that are structurally
/// equal to `t`.
fn count_match(v: &Vec<Expr>, hi: usize, t: &Expr) -> (c: usize)
    requires
        hi <= v@.len(),
    ensures
        c == count_in(nodes_of(v@).take(hi as int), t@),
{
    proof {
        lemma_nodes_of(v@);
        assert(nodes_of(v@).take(0) =~= Seq::<Node>::empty());
    }
    let mut c: usize = 0;
    let mut j: usize = 0;
    while j < hi
        invariant
            j <= hi <= v@.len(),
            nodes_of(v@).len() == v@.len(),
            forall|k: int| 0 <= k < v@.len() ==> nodes_of(v@)[k] == node_of(#[trigger] v@[k]),
            c == count_in(nodes_of(v@).take(j as int), t@),
            c <= j,
        decreases hi - j,
    {
        let hit = eq_expr(&v[j], t);
        proof {
            lemma_count_in_take_step(nodes_of(v@), j as int, t@);
        }
        if hit {
            c = c + 1;
        }
        j = j + 1;
    }
    c
}

/// Counts the members of `v` before position `hi` that are structurally
/// equal to the negation of `t`, for a `t` that is not itself a negation.
fn count_match_negated(v: &Vec<Expr>, hi: usize, t: &Expr) -> (c: usize)
    requires
        hi <= v@.len(),
        !(t@ is Negation),
    ensures
        c == count_in(nodes_of(v@).take(hi as int), partner(t@)),
{
    proof {
        lemma_nodes_of(v@);
        assert(nodes_of(v@).take(0) =~= Seq::<Node>::empty());
    }
    let mut c: usize = 0;
    let mut j: usize = 0;
    while j < hi
        invariant
            j <= hi <= v@.len(),
            nodes_of(v@).len() == v@.len(),
            forall|k: int| 0 <= k < v@.len() ==> nodes_of(v@)[k] == node_of(#[trigger] v@[k]),
            c == count_in(nodes_of(v@).take(j as int), partner(t@)),
            c <= j,
            !(t@ is Negation),
        decreases hi - j,
    {
        let hit = match &v[j] {
            Expr::Negation(inner) => eq_expr(inner, t),
            _ => false,
        };
        proof {
            lemma_count_in_take_step(nodes_of(v@), j as int, partner(t@));
            assert(hit == (nodes_of(v@)[j as int] == partner(t@)));
        }
        if hit {
            c = c + 1;
        }
        j = j + 1;
    }
    c
}

/// Simplifies the borrowed tree into a freshly built canonical tree.
#[verifier::loop_isolation(false)]
#[verifier::rlimit(100)]
fn simplify_ref(e: &Expr) -> (r: Result<Expr, SimplifyError>)
    requires
        lit_total(e@) <= u128::MAX,
    ensures
        r is Ok <==> supported(e@),
        r matches Ok(s) ==> s@ == canon(e@),
    decreases size(e@),
{
    match e {
        Expr::Literal(m) => Ok(Expr::Literal(*m)),
        Expr::Constant(c) => Ok(Expr::Constant(*c)),
        Expr::Product(_) => Err(SimplifyError::Unsupported),
        Expr::Fraction(_, _) => Err(SimplifyError::Unsupported),
        Expr::Negation(inner) => {
            let s = match simplify_ref(inner) {
                Ok(s) => s,
                Err(err) => {
                    return Err(err);
                },
            };
            match s {
                Expr::Negation(j) => Ok(*j),
                other => Ok(Expr::Negation(Box::new(other))),
            }
        },
        Expr::Sum(children) => {
            let ghost cs = nodes_of(children@);
            proof {
                lemma_nodes_of(children@);
                assert(e@ == Node::Sum { children: cs });
                assert(size(e@) == 1 + size_seq(cs));
            }
            let n = children.len();

            // Pass one: simplify every child, reporting the first
            // unsupported kind found anywhere below.
            let mut simp: Vec<Expr> = Vec::new();
            let mut i: usize = 0;
            while i < n
                invariant
                    i <= n,
                    n == children@.len(),
                    cs == nodes_of(children@),
                    cs.len() == n,
                    forall|k: int|
                        0 <= k < children@.len() ==> cs[k] == node_of(#[trigger] children@[k]),
                    lit_total_seq(cs) <= u128::MAX,
                    simp@.len() == i,
                    forall|k: int|
                        0 <= k < i ==> nodes_of(simp@)[k] == canon(#[trigger] cs[k]),
                    forall|k: int| 0 <= k < i ==> supported(#[trigger] cs[k]),
                decreases n - i,
            {
                proof {
                    lemma_size_seq_elem(cs, i as int);
                    lemma_lit_total_seq_elem(cs, i as int);
                    assert(cs[i as int] == node_of(children@[i as int]));
                    assert(size(e@) == 1 + size_seq(cs));
                }
                match simplify_ref(&children[i]) {
                    Ok(s) => {
                        let ghost pre = simp@;
                        proof {
                            lemma_nodes_of(pre);
                            lemma_nodes_of_push(pre, s);
                        }
                        simp.push(s);
                        proof {
                            assert(nodes_of(simp@) == nodes_of(pre).push(s@));
                            assert(s@ == canon(cs[i as int]));
                            assert forall|k: int|
                                0 <= k < i + 1 implies nodes_of(simp@)[k] == canon(
                                #[trigger] cs[k],
                            ) by {
                                if k < i {
                                    assert(nodes_of(simp@)[k] == nodes_of(pre)[k]);
                                } else {
                                    assert(nodes_of(simp@)[k] == s@);
                                }
                            }
                        }
                    },
                    Err(err) => {
                        proof {
                            assert(!supported(cs[i as int]));
                            lemma_supported_seq(cs);
                            assert(!supported_seq(cs));
                            assert(e@ == Node::Sum { children: cs });
                        }
                        return Err(err);
                    },
                }
                i = i + 1;
            }
            proof {
                lemma_supported_seq(cs);
                assert(supported(e@));
            }
            let ghost ss = nodes_of(simp@);
            proof {
                lemma_nodes_of(simp@);
                lemma_canon_seq_index(cs);
                assert forall|k: int| 0 <= k < n implies ss[k] == canon_seq(cs)[k] by {
                    assert(nodes_of(simp@)[k] == canon(cs[k]));
                    assert(canon_seq(cs)[k] == canon(cs[k]));
                }
                assert(ss =~= canon_seq(cs));
                lemma_canon_seq_props(cs);
            }

            // Pass two: decide for every member whether it survives
            // multiplicity-based cancellation.
            let mut keep: Vec<bool> = Vec::new();
            let mut i: usize = 0;
            while i < n
                invariant
                    i <= n,
                    simp@.len() == n,
                    ss == nodes_of(simp@),
                    ss.len() == n,
                    forall|k: int| 0 <= k < simp@.len() ==> ss[k] == node_of(#[trigger] simp@[k]),
                    keep@.len() == i,
                    forall|k: int| 0 <= k < i ==> keep@[k] == keep_at(ss, k),
                decreases n - i,
            {
                let full: usize;
                let opposite: usize;
                let before: usize;
                match &simp[i] {
                    Expr::Negation(u) => {
                        full = count_match(&simp, n, &simp[i]);
                        opposite = count_match(&simp, n, u);
                        before = count_match(&simp, i, &simp[i]);
                        proof {
                            assert(partner(ss[i as int]) == u@);
                        }
                    },
                    _ => {
                        full = count_match(&simp, n, &simp[i]);
                        opposite = count_match_negated(&simp, n, &simp[i]);
                        before = count_match(&simp, i, &simp[i]);
                    },
                }
                proof {
                    assert(ss.take(n as int) =~= ss);
                }
                let k = if full <= opposite {
                    full
                } else {
                    opposite
                };
                proof {
                    assert(k == removed_count(ss, ss[i as int]));
                    assert((before >= k) == keep_at(ss, i as int));
                }
                keep.push(before >= k);
                i = i + 1;
            }

            // Pass three: drop the cancelled members, in order.
            let mut kept: Vec<Expr> = Vec::new();
            proof {
                assert(ss.skip(0) =~= ss);
                assert(cancel_upto(ss, 0) == Seq::<Node>::empty());
            }
            let mut j: usize = 0;
            while j < n
                invariant
                    j <= n,
                    keep@.len() == n,
                    ss.len() == n,
                    simp@.len() == n - j,
                    nodes_of(simp@) == ss.skip(j as int),
                    forall|k: int| 0 <= k < n ==> keep@[k] == keep_at(ss, k),
                    nodes_of(kept@) == cancel_upto(ss, j as int),
                decreases n - j,
            {
                proof {
                    lemma_nodes_of(simp@);
                    assert(node_of(simp@[0]) == ss.skip(j as int)[0]);
                    assert(simp@.remove(0) =~= simp@.subrange(1, simp@.len() as int));
                    lemma_nodes_of_subrange(simp@, 1, simp@.len() as int);
                    assert(nodes_of(simp@).subrange(1, nodes_of(simp@).len() as int) =~= ss.skip(
                        j as int + 1,
                    ));
                }
                let x = simp.remove(0);
                let keep_it = keep[j];
                proof {
                    assert(x@ == ss[j as int]);
                }
                if keep_it {
                    proof {
                        lemma_nodes_of_push(kept@, x);
                        assert(cancel_upto(ss, j as int + 1) =~= cancel_upto(ss, j as int).push(
                            ss[j as int],
                        ));
                    }
                    kept.push(x);
                } else {
                    proof {
                        assert(cancel_upto(ss, j as int + 1) =~= cancel_upto(ss, j as int));
                    }
                }
                j = j + 1;
            }
            let ghost kss = nodes_of(kept@);
            proof {
                lemma_nodes_of(kept@);
                assert(kss == cancel(ss));
                lemma_cancel_upto_lit_total(ss, ss.len() as int);
                assert(ss.take(ss.len() as int) =~= ss);
                lemma_lit_sum_le_lit_total(kss);
                assert(lit_sum(kss) <= u128::MAX);
                lemma_first_lit(kss);
            }
            let m = kept.len();

            // Pass four: find the first literal and the exact sum of all
            // literal magnitudes among the survivors.
            let mut fi: usize = m;
            let mut total: u128 = 0;
            let mut j: usize = 0;
            while j < m
                invariant
                    j <= m,
                    kept@.len() == m,
                    kss == nodes_of(kept@),
                    kss.len() == m,
                    forall|k: int| 0 <= k < kept@.len() ==> kss[k] == node_of(#[trigger] kept@[k]),
                    lit_sum(kss) <= u128::MAX,
                    0 <= first_lit(kss) <= m,
                    first_lit(kss) < m ==> kss[first_lit(kss)] is Literal,
                    forall|k: int| 0 <= k < first_lit(kss) ==> !(#[trigger] kss[k] is Literal),
                    total == lit_sum(kss.take(j as int)),
                    fi as int == (if first_lit(kss) < j { first_lit(kss) } else {
                        m as int
                    }),
                decreases m - j,
            {
                proof {
                    lemma_lit_sum_take_step(kss, j as int);
                    lemma_lit_sum_take_le(kss, j as int + 1);
                }
                match &kept[j] {
                    Expr::Literal(mag) => {
                        total = total + *mag;
                        if fi == m {
                            proof {
                                assert(kss[j as int] is Literal);
                                assert(first_lit(kss) == j as int);
                            }
                            fi = j;
                        }
                    },
                    _ => {
                        proof {
                            assert(!(kss[j as int] is Literal));
                            assert(first_lit(kss) != j as int);
                        }
                    },
                }
                j = j + 1;
            }
            proof {
                assert(kss.take(m as int) =~= kss);
                assert(total == lit_sum(kss));
                assert(fi as int == first_lit(kss));
            }

            // Pass five: fold the literals into the first one and keep
            // everything else in place.
            let mut out: Vec<Expr> = Vec::new();
            proof {
                assert(kss.skip(0) =~= kss);
                assert(kss.take(0) =~= Seq::<Node>::empty());
            }
            let mut j: usize = 0;
            while j < m
                invariant
                    j <= m,
                    kss.len() == m,
                    kept@.len() == m - j,
                    nodes_of(kept@) == kss.skip(j as int),
                    fi as int == first_lit(kss),
                    total == lit_sum(kss),
                    fi <= m,
                    nodes_of(out@) == (if j <= fi {
                        kss.take(j as int)
                    } else {
                        kss.take(fi as int) + seq![Node::Literal { magnitude: total as nat }]
                            + strip_lits(kss.subrange(fi as int + 1, j as int))
                    }),
                decreases m - j,
            {
                proof {
                    lemma_nodes_of(kept@);
                    assert(node_of(kept@[0]) == kss.skip(j as int)[0]);
                    assert(kept@.remove(0) =~= kept@.subrange(1, kept@.len() as int));
                    lemma_nodes_of_subrange(kept@, 1, kept@.len() as int);
                    assert(nodes_of(kept@).subrange(1, nodes_of(kept@).len() as int) =~= kss.skip(
                        j as int + 1,
                    ));
                }
                let x = kept.remove(0);
                proof {
                    assert(x@ == kss[j as int]);
                }
                if j < fi {
                    proof {
                        lemma_nodes_of_push(out@, x);
                        assert(kss.take(j as int + 1) =~= kss.take(j as int).push(kss[j as int]));
                    }
                    out.push(x);
                } else if j == fi {
                    let folded = Expr::Literal(total);
                    proof {
                        lemma_nodes_of_push(out@, folded);
                        assert(kss.subrange(fi as int + 1, fi as int + 1) =~= Seq::<Node>::empty());
                        assert(strip_lits(kss.subrange(fi as int + 1, fi as int + 1))
                            =~= Seq::<Node>::empty());
                        assert(kss.take(fi as int) + seq![
                            Node::Literal { magnitude: total as nat },
                        ] + Seq::<Node>::empty() =~= kss.take(fi as int).push(
                            Node::Literal { magnitude: total as nat },
                        ));
                    }
                    out.push(folded);
                } else {
                    proof {
                        assert(kss.subrange(fi as int + 1, j as int + 1) =~= kss.subrange(
                            fi as int + 1,
                            j as int,
                        ) + seq![kss[j as int]]);
                        lemma_strip_lits_append(
                            kss.subrange(fi as int + 1, j as int),
                            seq![kss[j as int]],
                        );
                        lemma_singleton(kss[j as int]);
                    }
                    match x {
                        Expr::Literal(_) => {
                            proof {
                                assert(strip_lits(kss.subrange(fi as int + 1, j as int + 1))
                                    =~= strip_lits(kss.subrange(fi as int + 1, j as int)));
                            }
                        },
                        other => {
                            proof {
                                lemma_nodes_of_push(out@, other);
                                assert((kss.take(fi as int) + seq![
                                    Node::Literal { magnitude: total as nat },
                                ] + strip_lits(kss.subrange(fi as int + 1, j as int))).push(
                                    kss[j as int],
                                ) =~= kss.take(fi as int) + seq![
                                    Node::Literal { magnitude: total as nat },
                                ] + strip_lits(kss.subrange(fi as int + 1, j as int + 1)));
                            }
                            out.push(other);
                        },
                    }
                }
                j = j + 1;
            }
            proof {
                if fi < m {
                    assert(kss.subrange(fi as int + 1, m as int) == kss.subrange(
                        fi as int + 1,
                        kss.len() as int,
                    ));
                    assert(nodes_of(out@) == fold_lits(kss));
                } else {
                    assert(kss.take(m as int) =~= kss);
                    assert(nodes_of(out@) == fold_lits(kss));
                }
                assert(canon(e@) == crate::canonical::collapse(fold_lits(cancel(canon_seq(cs)))));
            }

            // Collapse degenerate sums.
            proof {
                lemma_nodes_of(out@);
                assert(nodes_of(out@).len() == out@.len());
            }
            if out.len() == 0 {
                Ok(Expr::Constant(ConstName::Zero))
            } else if out.len() == 1 {
                proof {
                    assert(nodes_of(out@)[0] == node_of(out@[0]));
                }
                let x = out.remove(0);
                Ok(x)
            } else {
                Ok(Expr::Sum(out))
            }
        },
    }
}

impl Expr {
    /// The total of all literal magnitudes in the tree, or `None` where
    /// that total does not fit the exact literal type.  A `Some` result is
    /// exactly the bound that [`Expr::simplify`] requires of its input.
    pub fn literal_total(&self) -> (r: Option<u128>)
        ensures
            r is Some <==> lit_total(self@) <= u128::MAX,
            r matches Some(t) ==> t == lit_total(self@),
        decreases size(self@), 0nat,
    {
        match self {
            Expr::Literal(m) => Some(*m),
            Expr::Negation(inner) => inner.literal_total(),
            Expr::Sum(children) => literal_total_children(children),
            Expr::Product(children) => literal_total_children(children),
            Expr::Fraction(numerator, denominator) => {
                match (numerator.literal_total(), denominator.literal_total()) {
                    (Some(a), Some(b)) => a.checked_add(b),
                    _ => None,
                }
            },
            Expr::Constant(_) => Some(0),
        }
    }

    /// Consumes the tree and returns its canonical form: children
    /// simplified recursively, double negation eliminated transitively, and
    /// sums reduced by multiplicity-based structural cancellation followed
    /// by exact literal folding and collapse of degenerate child lists.
    ///
    /// Succeeds exactly when the tree contains no product and no fraction;
    /// those kinds have no canonical form here and are reported as
    /// [`SimplifyError::Unsupported`].
    ///
    /// The precondition bounds the total of all literal magnitudes so that
    /// exact folding cannot overflow the literal representation.
    pub fn simplify(self) -> (r: Result<Expr, SimplifyError>)
        requires
            lit_total(self@) <= u128::MAX,
        ensures
            r is Ok <==> supported(self@),
            r matches Ok(s) ==> s@ == canon(self@),
    {
        simplify_ref(&self)
    }
}

} // verus!
