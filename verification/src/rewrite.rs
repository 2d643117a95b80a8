//! The rewriting of a formula to conjunctive normal form, as mathematics:
//! one bottom-up pass, the passes repeated until nothing is left to do, and
//! the proof that each pass keeps the meaning and lowers the measure.

use crate::formula::{
    below, children, equivalent, holds, lemma_holds_and, lemma_holds_or, lemma_mentions, mentions,
    lemma_weight_at_least_two, lemma_weights_at_least_two, not_above, size, sizes, weight,
    weights, Assignment, Formula, Literal,
};
use crate::series::{
    all_at_least, lemma_product_at_least, lemma_product_concat, lemma_product_pointwise,
    lemma_product_swap_remove, lemma_push, lemma_remove, lemma_single, lemma_sum_concat,
    lemma_sum_pointwise, lemma_sum_scale, lemma_update, pointwise_le, product, scale, sum,
};
use vstd::prelude::*;

verus! {

/// What one pass found at a node.
#[derive(Debug, Clone, Copy, PartialEq, Eq, Structural)]
pub enum VisitorStatus {
    /// A conjunction of clauses and literals: conjunctive normal form.
    Cnf,
    /// A disjunction of literals.
    CnfClause,
    /// A literal.
    Literal,
    /// Anything else; the pass has rewritten the node.
    Other,
}

/// The conjunction or the disjunction of `cs`.
pub open spec fn node(is_and: bool, cs: Seq<Formula>) -> Formula {
    if is_and {
        Formula::And(cs)
    } else {
        Formula::Or(cs)
    }
}

/// `f` is a conjunction (for `is_and`) or a disjunction (otherwise).
pub open spec fn is_node(is_and: bool, f: Formula) -> bool {
    if is_and {
        f is And
    } else {
        f is Or
    }
}

/// Merges nested nodes of the parent's kind into the parent, from position
/// `i` on. A nested node gives its last member to its own place and the
/// others to the end, where the scan reaches them in turn; an empty nested
/// node disappears.
pub open spec fn flatten(is_and: bool, cs: Seq<Formula>, i: int) -> Seq<Formula>
    decreases sum(sizes(cs)) - i,
{
    if 0 <= i < cs.len() {
        if is_node(is_and, cs[i]) {
            let ys = children(cs[i]);
            proof {
                lemma_flatten_measure(is_and, cs, i);
            }
            if ys.len() == 0 {
                flatten(is_and, cs.remove(i), i)
            } else {
                flatten(is_and, cs.update(i, ys.last()) + ys.drop_last(), i + 1)
            }
        } else {
            proof {
                lemma_flatten_measure(is_and, cs, i);
            }
            flatten(is_and, cs, i + 1)
        }
    } else {
        cs
    }
}

/// Every formula has a node, so members have at least as many nodes as
/// they are.
pub proof fn lemma_sizes_at_least_one(cs: Seq<Formula>)
    ensures
        all_at_least(sizes(cs), 1),
        sum(sizes(cs)) >= cs.len(),
    decreases cs.len(),
{
    assert forall|i: int| 0 <= i < sizes(cs).len() implies #[trigger] sizes(cs)[i] >= 1 by {}
    if cs.len() > 0 {
        assert(sizes(cs).drop_last() =~= sizes(cs.drop_last()));
        lemma_sizes_at_least_one(cs.drop_last());
    }
}

/// The member lists of the three shapes that one step of `flatten` leaves.
pub proof fn lemma_flatten_shapes(cs: Seq<Formula>, i: int)
    requires
        0 <= i < cs.len(),
    ensures
        sizes(cs.remove(i)) == sizes(cs).remove(i),
        weights(cs.remove(i)) == weights(cs).remove(i),
        children(cs[i]).len() > 0 ==> {
            let ys = children(cs[i]);
            &&& sizes(cs.update(i, ys.last()) + ys.drop_last()) == sizes(cs).update(
                i,
                size(ys.last()),
            ) + sizes(ys.drop_last())
            &&& weights(cs.update(i, ys.last()) + ys.drop_last()) == weights(cs).update(
                i,
                weight(ys.last()),
            ) + weights(ys.drop_last())
            &&& sizes(ys) == sizes(ys.drop_last()).push(size(ys.last()))
            &&& weights(ys) == weights(ys.drop_last()).push(weight(ys.last()))
        },
{
    assert(sizes(cs.remove(i)) =~= sizes(cs).remove(i));
    assert(weights(cs.remove(i)) =~= weights(cs).remove(i));
    let ys = children(cs[i]);
    if ys.len() > 0 {
        assert(sizes(cs.update(i, ys.last()) + ys.drop_last()) =~= sizes(cs).update(
            i,
            size(ys.last()),
        ) + sizes(ys.drop_last()));
        assert(weights(cs.update(i, ys.last()) + ys.drop_last()) =~= weights(cs).update(
            i,
            weight(ys.last()),
        ) + weights(ys.drop_last()));
        assert(sizes(ys) =~= sizes(ys.drop_last()).push(size(ys.last())));
        assert(weights(ys) =~= weights(ys.drop_last()).push(weight(ys.last())));
    }
}

/// Each step of `flatten` lowers the number of nodes still to scan.
pub proof fn lemma_flatten_measure(is_and: bool, cs: Seq<Formula>, i: int)
    requires
        0 <= i < cs.len(),
    ensures
        sum(sizes(cs)) - i > 0,
        is_node(is_and, cs[i]) && children(cs[i]).len() == 0 ==> sum(sizes(cs.remove(i))) + 1
            == sum(sizes(cs)),
        is_node(is_and, cs[i]) && children(cs[i]).len() > 0 ==> sum(
            sizes(cs.update(i, children(cs[i]).last()) + children(cs[i]).drop_last()),
        ) + 1 == sum(sizes(cs)),
        is_node(is_and, cs[i]) && children(cs[i]).len() > 0 ==> sum(
            sizes(cs.update(i, children(cs[i]).last()) + children(cs[i]).drop_last()),
        ) >= i + 1,
{
    lemma_sizes_at_least_one(cs);
    lemma_flatten_shapes(cs, i);
    let ys = children(cs[i]);
    if is_node(is_and, cs[i]) {
        assert(size(cs[i]) == 1 + sum(sizes(ys)));
        assert(sizes(cs)[i] == size(cs[i]));
        if ys.len() == 0 {
            lemma_remove(sizes(cs), i);
            assert(sizes(ys) =~= Seq::<nat>::empty());
        } else {
            lemma_update(sizes(cs), i, size(ys.last()));
            lemma_sum_concat(sizes(cs).update(i, size(ys.last())), sizes(ys.drop_last()));
            lemma_push(sizes(ys.drop_last()), size(ys.last()));
            lemma_sizes_at_least_one(cs.update(i, ys.last()) + ys.drop_last());
        }
    }
}

/// The measure that `flatten` never raises: the sum of the members' weights
/// under a conjunction, their product under a disjunction.
pub open spec fn joint_weight(is_and: bool, cs: Seq<Formula>) -> nat {
    if is_and {
        sum(weights(cs))
    } else {
        product(weights(cs))
    }
}

/// Dropping an empty nested node of the parent's kind keeps the meaning.
pub proof fn lemma_remove_keeps_meaning(is_and: bool, cs: Seq<Formula>, i: int, a: Assignment)
    requires
        0 <= i < cs.len(),
        is_node(is_and, cs[i]),
        children(cs[i]).len() == 0,
    ensures
        holds(node(is_and, cs.remove(i)), a) == holds(node(is_and, cs), a),
{
    let rs = cs.remove(i);
    lemma_holds_and(cs, a);
    lemma_holds_and(rs, a);
    lemma_holds_or(cs, a);
    lemma_holds_or(rs, a);
    lemma_holds_and(children(cs[i]), a);
    lemma_holds_or(children(cs[i]), a);
    if is_and {
        assert(holds(cs[i], a));
        if holds(Formula::And(rs), a) {
            assert forall|j: int| 0 <= j < cs.len() implies holds(#[trigger] cs[j], a) by {
                if j < i {
                    assert(cs[j] == rs[j]);
                } else if j > i {
                    assert(cs[j] == rs[j - 1]);
                }
            }
        }
        if holds(Formula::And(cs), a) {
            assert forall|j: int| 0 <= j < rs.len() implies holds(#[trigger] rs[j], a) by {
                if j < i {
                    assert(rs[j] == cs[j]);
                } else {
                    assert(rs[j] == cs[j + 1]);
                }
            }
        }
    } else {
        assert(!holds(cs[i], a));
        if holds(Formula::Or(rs), a) {
            let j = choose|j: int| 0 <= j < rs.len() && holds(#[trigger] rs[j], a);
            if j < i {
                assert(rs[j] == cs[j]);
            } else {
                assert(rs[j] == cs[j + 1]);
            }
        }
        if holds(Formula::Or(cs), a) {
            let j = choose|j: int| 0 <= j < cs.len() && holds(#[trigger] cs[j], a);
            if j < i {
                assert(cs[j] == rs[j]);
            } else {
                assert(j > i);
                assert(cs[j] == rs[j - 1]);
            }
        }
    }
}

/// Moving the members of a nested node of the parent's kind into the parent
/// keeps the meaning.
pub proof fn lemma_splice_keeps_meaning(is_and: bool, cs: Seq<Formula>, i: int, a: Assignment)
    requires
        0 <= i < cs.len(),
        is_node(is_and, cs[i]),
        children(cs[i]).len() > 0,
    ensures
        holds(
            node(is_and, cs.update(i, children(cs[i]).last()) + children(cs[i]).drop_last()),
            a,
        ) == holds(node(is_and, cs), a),
{
    let ys = children(cs[i]);
    let n = cs.len() as int;
    let m = ys.len() as int;
    let ns = cs.update(i, ys.last()) + ys.drop_last();
    assert(ns[i] == ys[m - 1]);
    lemma_holds_and(cs, a);
    lemma_holds_and(ns, a);
    lemma_holds_or(cs, a);
    lemma_holds_or(ns, a);
    lemma_holds_and(ys, a);
    lemma_holds_or(ys, a);
    if is_and {
        if holds(Formula::And(ns), a) {
            assert forall|k: int| 0 <= k < m implies holds(#[trigger] ys[k], a) by {
                if k == m - 1 {
                    assert(ys[k] == ns[i]);
                } else {
                    assert(ys[k] == ns[n + k]);
                }
            }
            assert forall|j: int| 0 <= j < n implies holds(#[trigger] cs[j], a) by {
                if j != i {
                    assert(cs[j] == ns[j]);
                }
            }
        }
        if holds(Formula::And(cs), a) {
            assert(holds(cs[i], a));
            assert forall|j: int| 0 <= j < ns.len() implies holds(#[trigger] ns[j], a) by {
                if j == i {
                    assert(holds(ys[m - 1], a));
                } else if j < n {
                    assert(ns[j] == cs[j]);
                } else {
                    assert(ns[j] == ys[j - n]);
                    assert(holds(ys[j - n], a));
                }
            }
        }
    } else {
        if holds(Formula::Or(ns), a) {
            let j = choose|j: int| 0 <= j < ns.len() && holds(#[trigger] ns[j], a);
            if j == i {
                assert(holds(ys[m - 1], a));
                assert(holds(cs[i], a));
            } else if j < n {
                assert(ns[j] == cs[j]);
            } else {
                assert(ns[j] == ys[j - n]);
                assert(holds(ys[j - n], a));
                assert(holds(cs[i], a));
            }
        }
        if holds(Formula::Or(cs), a) {
            let j = choose|j: int| 0 <= j < cs.len() && holds(#[trigger] cs[j], a);
            if j == i {
                let k = choose|k: int| 0 <= k < ys.len() && holds(#[trigger] ys[k], a);
                if k == m - 1 {
                    assert(holds(ns[i], a));
                } else {
                    assert(ns[n + k] == ys[k]);
                    assert(holds(ns[n + k], a));
                }
            } else {
                assert(ns[j] == cs[j]);
                assert(holds(ns[j], a));
            }
        }
    }
}

/// What `flatten` keeps and what it lowers.
pub proof fn lemma_flatten(is_and: bool, cs: Seq<Formula>, i: int)
    requires
        0 <= i <= cs.len(),
    ensures
        equivalent(node(is_and, flatten(is_and, cs, i)), node(is_and, cs)),
        joint_weight(is_and, flatten(is_and, cs, i)) <= joint_weight(is_and, cs),
        sum(sizes(flatten(is_and, cs, i))) <= sum(sizes(cs)),
        (exists|j: int| i <= j < cs.len() && is_node(is_and, #[trigger] cs[j])) ==> sum(
            sizes(flatten(is_and, cs, i)),
        ) < sum(sizes(cs)),
        (forall|j: int| i <= j < cs.len() ==> !is_node(is_and, #[trigger] cs[j])) ==> flatten(
            is_and,
            cs,
            i,
        ) == cs,
    decreases sum(sizes(cs)) - i,
{
    if i < cs.len() {
        lemma_flatten_measure(is_and, cs, i);
        lemma_flatten_shapes(cs, i);
        lemma_weights_at_least_two(cs);
        if is_node(is_and, cs[i]) {
            let ys = children(cs[i]);
            assert(weights(cs)[i] == weight(cs[i]));
            if ys.len() == 0 {
                let ns = cs.remove(i);
                lemma_flatten(is_and, ns, i);
                assert forall|a: Assignment|
                    holds(node(is_and, flatten(is_and, cs, i)), a) == holds(
                        node(is_and, cs),
                        a,
                    ) by {
                    lemma_remove_keeps_meaning(is_and, cs, i, a);
                }
                lemma_remove(weights(cs), i);
                if !is_and {
                    let p = product(weights(ns));
                    let q = product(weights(cs));
                    assert(p <= q) by (nonlinear_arith)
                        requires
                            p * 2 == q,
                    ;
                } else {
                    assert(weights(ys) =~= Seq::<nat>::empty());
                }
            } else {
                let wl = weight(ys.last());
                let ns = cs.update(i, ys.last()) + ys.drop_last();
                lemma_flatten(is_and, ns, i + 1);
                assert forall|a: Assignment|
                    holds(node(is_and, flatten(is_and, cs, i)), a) == holds(
                        node(is_and, cs),
                        a,
                    ) by {
                    lemma_splice_keeps_meaning(is_and, cs, i, a);
                }
                lemma_update(weights(cs), i, wl);
                lemma_push(weights(ys.drop_last()), wl);
                if is_and {
                    lemma_sum_concat(weights(cs).update(i, wl), weights(ys.drop_last()));
                } else {
                    lemma_product_concat(weights(cs).update(i, wl), weights(ys.drop_last()));
                    lemma_weight_at_least_two(ys.last());
                    let u = product(weights(cs).update(i, wl));
                    let d = product(weights(ys.drop_last()));
                    let c = product(weights(cs));
                    assert(u * d == c) by (nonlinear_arith)
                        requires
                            u * (d * wl) == c * wl,
                            wl >= 2,
                    ;
                }
            }
        } else {
            lemma_flatten(is_and, cs, i + 1);
        }
    }
}

/// The position of the first conjunction among `cs`, if there is one.
pub open spec fn first_and(cs: Seq<Formula>) -> Option<int>
    decreases cs.len(),
{
    if cs.len() == 0 {
        None
    } else {
        match first_and(cs.drop_last()) {
            Some(k) => Some(k),
            None => if cs.last() is And {
                Some(cs.len() - 1)
            } else {
                None
            },
        }
    }
}

/// The first conjunction is a conjunction, and none comes before it; where
/// there is none, no member is a conjunction.
pub proof fn lemma_first_and(cs: Seq<Formula>)
    ensures
        match first_and(cs) {
            Some(k) => 0 <= k < cs.len() && cs[k] is And && forall|j: int|
                0 <= j < k ==> !(#[trigger] cs[j] is And),
            None => forall|j: int| 0 <= j < cs.len() ==> !(#[trigger] cs[j] is And),
        },
    decreases cs.len(),
{
    if cs.len() > 0 {
        let r = cs.drop_last();
        lemma_first_and(r);
        match first_and(r) {
            Some(k) => {
                assert(cs[k] == r[k]);
                assert forall|j: int| 0 <= j < k implies !(#[trigger] cs[j] is And) by {
                    assert(cs[j] == r[j]);
                }
            },
            None => {
                assert forall|j: int| 0 <= j < cs.len() - 1 implies !(#[trigger] cs[j] is And) by {
                    assert(cs[j] == r[j]);
                }
            },
        }
    }
}

/// `other` or-ed into each of `args`: the members of the conjunction that
/// distribution builds.
pub open spec fn spread(other: Formula, args: Seq<Formula>) -> Seq<Formula> {
    Seq::new(args.len(), |j: int| Formula::Or(seq![other, args[j]]))
}

/// One step of distribution on the members of a disjunction: the first
/// conjunction leaves (the last member takes its place), the member then
/// last leaves too, and the conjunction of that member or-ed into each
/// member of the first is added at the end. Without a conjunction, or with
/// fewer than two members, nothing changes.
pub open spec fn distribute(cs: Seq<Formula>) -> Seq<Formula> {
    match first_and(cs) {
        Some(k) => if cs.len() >= 2 {
            let rest = cs.update(k, cs.last()).drop_last();
            rest.drop_last().push(Formula::And(spread(rest.last(), children(cs[k]))))
        } else {
            cs
        },
        None => cs,
    }
}

/// `X or (A and B and ..)` means `(X or A) and (X or B) and ..`.
pub proof fn lemma_spread_meaning(other: Formula, args: Seq<Formula>, a: Assignment)
    ensures
        holds(Formula::And(spread(other, args)), a) == (holds(other, a) || holds(
            Formula::And(args),
            a,
        )),
{
    let sp = spread(other, args);
    lemma_holds_and(sp, a);
    lemma_holds_and(args, a);
    assert forall|j: int| 0 <= j < args.len() implies (holds(#[trigger] sp[j], a) == (holds(
        other,
        a,
    ) || holds(args[j], a))) by {
        let pair = seq![other, args[j]];
        lemma_holds_or(pair, a);
        assert(pair[0] == other && pair[1] == args[j]);
        if holds(sp[j], a) {
            let w = choose|w: int| 0 <= w < pair.len() && holds(#[trigger] pair[w], a);
            assert(w == 0 || w == 1);
        }
    }
    if holds(Formula::And(sp), a) && !holds(other, a) {
        assert forall|j: int| 0 <= j < args.len() implies holds(#[trigger] args[j], a) by {
            assert(holds(sp[j], a));
        }
    }
    if holds(other, a) || holds(Formula::And(args), a) {
        assert forall|j: int| 0 <= j < sp.len() implies holds(#[trigger] sp[j], a) by {
            if !holds(other, a) {
                assert(holds(args[j], a));
            }
        }
    }
}

/// Distribution keeps the meaning of the disjunction and, where it applies,
/// lowers its weight.
pub proof fn lemma_distribute(cs: Seq<Formula>)
    ensures
        equivalent(Formula::Or(distribute(cs)), Formula::Or(cs)),
        first_and(cs) is Some && cs.len() >= 2 ==> weight(Formula::Or(distribute(cs))) < weight(
            Formula::Or(cs),
        ),
        !(first_and(cs) is Some && cs.len() >= 2) ==> distribute(cs) == cs,
{
    lemma_first_and(cs);
    if first_and(cs) is Some && cs.len() >= 2 {
        let k = first_and(cs).unwrap();
        let n = cs.len() as int;
        let args = children(cs[k]);
        let rest = cs.update(k, cs.last()).drop_last();
        let other = rest.last();
        let rest2 = rest.drop_last();
        let big = Formula::And(spread(other, args));
        let d = rest2.push(big);
        assert(d == distribute(cs));
        assert(cs[k] == Formula::And(args));
        assert forall|a: Assignment| holds(Formula::Or(d), a) == holds(Formula::Or(cs), a) by {
            lemma_holds_or(d, a);
            lemma_holds_or(cs, a);
            lemma_spread_meaning(other, args, a);
            assert(d[n - 2] == big);
            assert(other == rest[n - 2]);
            if holds(Formula::Or(d), a) {
                let j = choose|j: int| 0 <= j < d.len() && holds(#[trigger] d[j], a);
                if j < n - 2 {
                    assert(d[j] == rest[j]);
                    if j == k {
                        assert(rest[j] == cs[n - 1]);
                    } else {
                        assert(rest[j] == cs[j]);
                    }
                } else {
                    if holds(other, a) {
                        if n - 2 == k {
                            assert(other == cs[n - 1]);
                        } else {
                            assert(other == cs[n - 2]);
                        }
                    } else {
                        assert(holds(cs[k], a));
                    }
                }
            }
            if holds(Formula::Or(cs), a) {
                let j = choose|j: int| 0 <= j < cs.len() && holds(#[trigger] cs[j], a);
                if j == k {
                    assert(holds(d[n - 2], a));
                } else {
                    let p = if j == n - 1 {
                        k
                    } else {
                        j
                    };
                    assert(rest[p] == cs[j]);
                    if p == n - 2 {
                        assert(holds(d[n - 2], a));
                    } else {
                        assert(d[p] == rest[p]);
                        assert(holds(d[p], a));
                    }
                }
            }
        }
        // the weights
        let wc = weights(cs);
        lemma_weights_at_least_two(cs);
        lemma_product_swap_remove(wc, k);
        assert(weights(rest) =~= wc.update(k, wc.last()).drop_last());
        assert(weights(rest).drop_last() =~= weights(rest2));
        let o = weight(other);
        lemma_weight_at_least_two(other);
        let r = product(weights(rest2));
        lemma_weights_at_least_two(rest2);
        lemma_product_at_least(weights(rest2), 1);
        assert(product(weights(rest)) == r * o);
        let sa = sum(weights(args));
        assert(wc[k] == 2 + sa);
        assert(weights(spread(other, args)) =~= scale(weights(args), o)) by {
            assert forall|j: int| 0 <= j < args.len() implies weights(spread(other, args))[j] == o
                * weights(args)[j] by {
                let pair = seq![other, args[j]];
                assert(weights(pair) =~= seq![o, weight(args[j])]);
                assert(seq![o, weight(args[j])].drop_last() =~= seq![o]);
                lemma_single(o);
            }
        }
        lemma_sum_scale(weights(args), o);
        assert(weight(big) == 2 + o * sa);
        assert(weights(d) =~= weights(rest2).push(weight(big)));
        lemma_push(weights(rest2), weight(big));
        let wn = product(weights(d));
        let wo = product(wc);
        assert(wn < wo) by (nonlinear_arith)
            requires
                wn == r * (2 + o * sa),
                (r * o) * (2 + sa) == wo,
                r >= 1,
                o >= 2,
        ;
    }
}

/// A disjunction all of whose members are literals.
pub open spec fn is_clause_node(f: Formula) -> bool {
    f is Or && forall|i: int| 0 <= i < children(f).len() ==> #[trigger] children(f)[i] is Atom
}

/// A conjunction each of whose members is a literal or a disjunction of
/// literals.
pub open spec fn is_cnf_node(f: Formula) -> bool {
    f is And && forall|i: int|
        0 <= i < children(f).len() ==> (#[trigger] children(f)[i] is Atom || is_clause_node(
            children(f)[i],
        ))
}

/// A literal, a disjunction of literals, or a conjunction of such: the forms
/// at which rewriting stops.
pub open spec fn is_normal(f: Formula) -> bool {
    f is Atom || is_clause_node(f) || is_cnf_node(f)
}

/// One pass over each member of `cs`.
pub open spec fn rewrite_each(cs: Seq<Formula>) -> Seq<(Formula, VisitorStatus)>
    decreases cs,
{
    Seq::new(
        cs.len(),
        |i: int|
            if 0 <= i < cs.len() {
                rewrite(cs[i])
            } else {
                (Formula::And(Seq::empty()), VisitorStatus::Other)
            },
    )
}

/// The formulas of a sequence of pass results.
pub open spec fn formulas(rs: Seq<(Formula, VisitorStatus)>) -> Seq<Formula> {
    Seq::new(rs.len(), |i: int| rs[i].0)
}

/// Every pass result is a literal.
pub open spec fn all_literals(rs: Seq<(Formula, VisitorStatus)>) -> bool {
    forall|i: int| 0 <= i < rs.len() ==> (#[trigger] rs[i]).1 == VisitorStatus::Literal
}

/// Every pass result is a literal or a clause.
pub open spec fn all_clauses(rs: Seq<(Formula, VisitorStatus)>) -> bool {
    forall|i: int|
        0 <= i < rs.len() ==> ((#[trigger] rs[i]).1 == VisitorStatus::Literal || rs[i].1
            == VisitorStatus::CnfClause)
}

/// One bottom-up pass. The members of a node are rewritten first. A node
/// already in its final form is reported as such and left alone. Any other
/// node with a single member is replaced by that member; one with more has
/// nested nodes of its own kind merged into it and, if it is a disjunction,
/// one conjunction distributed.
pub open spec fn rewrite(f: Formula) -> (Formula, VisitorStatus)
    decreases f,
{
    match f {
        Formula::Atom(_) => (f, VisitorStatus::Literal),
        Formula::And(cs) => {
            let rs = rewrite_each(cs);
            let ds = formulas(rs);
            if all_clauses(rs) {
                (Formula::And(ds), VisitorStatus::Cnf)
            } else if ds.len() == 1 {
                (ds[0], VisitorStatus::Other)
            } else {
                (Formula::And(flatten(true, ds, 0)), VisitorStatus::Other)
            }
        },
        Formula::Or(cs) => {
            let rs = rewrite_each(cs);
            let ds = formulas(rs);
            if all_literals(rs) {
                (Formula::Or(ds), VisitorStatus::CnfClause)
            } else if ds.len() == 1 {
                (ds[0], VisitorStatus::Other)
            } else {
                (Formula::Or(distribute(flatten(false, ds, 0))), VisitorStatus::Other)
            }
        },
    }
}

/// Members that are pairwise equivalent make equivalent nodes.
pub proof fn lemma_members_equivalent(is_and: bool, ds: Seq<Formula>, cs: Seq<Formula>)
    requires
        ds.len() == cs.len(),
        forall|i: int| 0 <= i < cs.len() ==> equivalent(#[trigger] ds[i], cs[i]),
    ensures
        equivalent(node(is_and, ds), node(is_and, cs)),
{
    assert forall|a: Assignment| holds(node(is_and, ds), a) == holds(node(is_and, cs), a) by {
        lemma_holds_and(ds, a);
        lemma_holds_and(cs, a);
        lemma_holds_or(ds, a);
        lemma_holds_or(cs, a);
        assert forall|i: int| 0 <= i < cs.len() implies holds(#[trigger] ds[i], a) == holds(
            cs[i],
            a,
        ) by {
            assert(equivalent(ds[i], cs[i]));
        }
        if is_and {
            if holds(Formula::And(ds), a) {
                assert forall|i: int| 0 <= i < cs.len() implies holds(#[trigger] cs[i], a) by {
                    assert(holds(ds[i], a));
                }
            }
            if holds(Formula::And(cs), a) {
                assert forall|i: int| 0 <= i < ds.len() implies holds(#[trigger] ds[i], a) by {
                    assert(holds(cs[i], a));
                }
            }
        } else {
            if holds(Formula::Or(ds), a) {
                let i = choose|i: int| 0 <= i < ds.len() && holds(#[trigger] ds[i], a);
                assert(holds(cs[i], a));
            }
            if holds(Formula::Or(cs), a) {
                let i = choose|i: int| 0 <= i < cs.len() && holds(#[trigger] cs[i], a);
                assert(holds(ds[i], a));
            }
        }
    }
}

/// Members that are pairwise no larger make a node that is no larger, and a
/// strictly smaller one if some member is strictly smaller.
pub proof fn lemma_members_not_above(is_and: bool, ds: Seq<Formula>, cs: Seq<Formula>)
    requires
        ds.len() == cs.len(),
        forall|i: int| 0 <= i < cs.len() ==> not_above(#[trigger] ds[i], cs[i]),
    ensures
        not_above(node(is_and, ds), node(is_and, cs)),
        (exists|k: int| 0 <= k < cs.len() && below(#[trigger] ds[k], cs[k])) ==> below(
            node(is_and, ds),
            node(is_and, cs),
        ),
{
    let wd = weights(ds);
    let wc = weights(cs);
    let sd = sizes(ds);
    let sc = sizes(cs);
    lemma_weights_at_least_two(ds);
    assert(pointwise_le(wd, wc)) by {
        assert forall|i: int| 0 <= i < wd.len() implies #[trigger] wd[i] <= wc[i] by {
            assert(not_above(ds[i], cs[i]));
        }
    }
    lemma_sum_pointwise(wd, wc);
    lemma_product_pointwise(wd, wc);
    if wd == wc {
        assert(pointwise_le(sd, sc)) by {
            assert forall|i: int| 0 <= i < sd.len() implies #[trigger] sd[i] <= sc[i] by {
                assert(not_above(ds[i], cs[i]));
                assert(wd[i] == wc[i]);
            }
        }
        lemma_sum_pointwise(sd, sc);
    }
    if exists|k: int| 0 <= k < cs.len() && below(#[trigger] ds[k], cs[k]) {
        let k = choose|k: int| 0 <= k < cs.len() && below(#[trigger] ds[k], cs[k]);
        if wd == wc {
            assert(wd[k] == wc[k]);
            assert(sd[k] < sc[k]);
            assert(sd != sc);
        } else {
        }
    }
}

/// What one pass keeps, what it reports, and what it lowers.
pub proof fn lemma_rewrite(f: Formula)
    ensures
        equivalent(rewrite(f).0, f),
        not_above(rewrite(f).0, f),
        rewrite(f).1 == VisitorStatus::Other ==> below(rewrite(f).0, f),
        rewrite(f).1 != VisitorStatus::Other ==> rewrite(f).0 == f,
        rewrite(f).1 == VisitorStatus::Literal <==> f is Atom,
        rewrite(f).1 == VisitorStatus::CnfClause <==> is_clause_node(f),
        rewrite(f).1 == VisitorStatus::Cnf <==> is_cnf_node(f),
    decreases f,
{
    match f {
        Formula::Atom(_) => {},
        Formula::And(cs) => {
            lemma_rewrite_node(true, cs);
        },
        Formula::Or(cs) => {
            lemma_rewrite_node(false, cs);
        },
    }
}

/// `lemma_rewrite` for a node, given its members.
pub proof fn lemma_rewrite_node(is_and: bool, cs: Seq<Formula>)
    ensures
        equivalent(rewrite(node(is_and, cs)).0, node(is_and, cs)),
        not_above(rewrite(node(is_and, cs)).0, node(is_and, cs)),
        rewrite(node(is_and, cs)).1 == VisitorStatus::Other ==> below(
            rewrite(node(is_and, cs)).0,
            node(is_and, cs),
        ),
        rewrite(node(is_and, cs)).1 != VisitorStatus::Other ==> rewrite(node(is_and, cs)).0
            == node(is_and, cs),
        rewrite(node(is_and, cs)).1 != VisitorStatus::Literal,
        rewrite(node(is_and, cs)).1 == VisitorStatus::CnfClause <==> is_clause_node(
            node(is_and, cs),
        ),
        rewrite(node(is_and, cs)).1 == VisitorStatus::Cnf <==> is_cnf_node(node(is_and, cs)),
    decreases cs,
{
    let f = node(is_and, cs);
    let rs = rewrite_each(cs);
    let ds = formulas(rs);
    assert forall|i: int| 0 <= i < cs.len() implies {
        &&& (#[trigger] rs[i]) == rewrite(cs[i])
        &&& ds[i] == rs[i].0
        &&& equivalent(ds[i], cs[i])
        &&& not_above(ds[i], cs[i])
        &&& (rs[i].1 == VisitorStatus::Other ==> below(ds[i], cs[i]))
        &&& (rs[i].1 != VisitorStatus::Other ==> ds[i] == cs[i])
        &&& (rs[i].1 == VisitorStatus::Literal <==> cs[i] is Atom)
        &&& (rs[i].1 == VisitorStatus::CnfClause <==> is_clause_node(cs[i]))
        &&& (rs[i].1 == VisitorStatus::Cnf <==> is_cnf_node(cs[i]))
    } by {
        lemma_rewrite(cs[i]);
    }
    assert forall|i: int| 0 <= i < cs.len() implies equivalent(#[trigger] ds[i], cs[i]) by {
        assert(rs[i] == rewrite(cs[i]));
    }
    assert forall|i: int| 0 <= i < cs.len() implies not_above(#[trigger] ds[i], cs[i]) by {
        assert(rs[i] == rewrite(cs[i]));
    }
    lemma_members_equivalent(is_and, ds, cs);
    lemma_members_not_above(is_and, ds, cs);
    let settled = if is_and {
        all_clauses(rs)
    } else {
        all_literals(rs)
    };
    if settled {
        assert(ds =~= cs) by {
            assert forall|i: int| 0 <= i < cs.len() implies ds[i] == cs[i] by {
                assert(rs[i] == rewrite(cs[i]));
            }
        }
        if is_and {
            assert forall|i: int| 0 <= i < cs.len() implies (#[trigger] cs[i] is Atom
                || is_clause_node(cs[i])) by {
                assert(rs[i] == rewrite(cs[i]));
            }
            assert(is_cnf_node(f));
        } else {
            assert forall|i: int| 0 <= i < cs.len() implies #[trigger] cs[i] is Atom by {
                assert(rs[i] == rewrite(cs[i]));
            }
            assert(is_clause_node(f));
        }
    } else {
        // some member is not yet in its final form for this node
        let k = if is_and {
            choose|k: int|
                0 <= k < rs.len() && !((#[trigger] rs[k]).1 == VisitorStatus::Literal || rs[k].1
                    == VisitorStatus::CnfClause)
        } else {
            choose|k: int| 0 <= k < rs.len() && (#[trigger] rs[k]).1 != VisitorStatus::Literal
        };
        assert(rs[k] == rewrite(cs[k]));
        if is_and {
            assert(!(cs[k] is Atom || is_clause_node(cs[k])));
            assert(children(f)[k] == cs[k]);
            assert(!is_cnf_node(f));
        } else {
            assert(!(cs[k] is Atom));
            assert(children(f)[k] == cs[k]);
            assert(!is_clause_node(f));
        }
        if rs[k].1 == VisitorStatus::Other {
            assert(below(ds[k], cs[k]));
        }
        if ds.len() == 1 {
            // the node is replaced by its only member
            assert(k == 0);
            lemma_unwrap(is_and, ds);
            assert forall|a: Assignment| holds(ds[0], a) == holds(f, a) by {
                assert(equivalent(node(is_and, ds), f));
                assert(equivalent(ds[0], node(is_and, ds)));
            }
        } else {
            let fl = flatten(is_and, ds, 0);
            lemma_flatten(is_and, ds, 0);
            lemma_node_measure(is_and, fl, ds);
            if rs[k].1 != VisitorStatus::Other {
                assert(ds[k] == cs[k]);
            }
            if is_and {
                assert forall|a: Assignment| holds(Formula::And(fl), a) == holds(f, a) by {
                    assert(equivalent(node(is_and, ds), f));
                    assert(equivalent(node(is_and, fl), node(is_and, ds)));
                }
                if rs[k].1 != VisitorStatus::Other {
                    assert(rs[k].1 == VisitorStatus::Cnf);
                    assert(is_node(is_and, ds[k]));
                }
            } else {
                let di = distribute(fl);
                lemma_distribute(fl);
                assert forall|a: Assignment| holds(Formula::Or(di), a) == holds(f, a) by {
                    assert(equivalent(node(is_and, ds), f));
                    assert(equivalent(node(is_and, fl), node(is_and, ds)));
                    assert(equivalent(Formula::Or(di), Formula::Or(fl)));
                }
                if rs[k].1 == VisitorStatus::CnfClause {
                    assert(is_node(is_and, ds[k]));
                } else if rs[k].1 == VisitorStatus::Cnf {
                    assert(ds[k] is And);
                    if forall|j: int| 0 <= j < ds.len() ==> !is_node(is_and, #[trigger] ds[j]) {
                        assert(fl == ds);
                        lemma_first_and(fl);
                        assert(first_and(fl) is Some);
                    } else {
                    }
                }
            }
        }
    }
}

/// A node with one member is larger than the member and means the same.
pub proof fn lemma_unwrap(is_and: bool, ds: Seq<Formula>)
    requires
        ds.len() == 1,
    ensures
        equivalent(ds[0], node(is_and, ds)),
        below(ds[0], node(is_and, ds)),
{
    assert forall|a: Assignment| holds(ds[0], a) == holds(node(is_and, ds), a) by {
        lemma_holds_and(ds, a);
        lemma_holds_or(ds, a);
    }
    assert(weights(ds) =~= seq![weight(ds[0])]);
    assert(sizes(ds) =~= seq![size(ds[0])]);
    lemma_single(weight(ds[0]));
    lemma_single(size(ds[0]));
}

/// From the members' joint measures to the nodes' order.
pub proof fn lemma_node_measure(is_and: bool, fl: Seq<Formula>, ds: Seq<Formula>)
    requires
        ds.len() >= 2,
        joint_weight(is_and, fl) <= joint_weight(is_and, ds),
        sum(sizes(fl)) <= sum(sizes(ds)),
    ensures
        not_above(node(is_and, fl), node(is_and, ds)),
        sum(sizes(fl)) < sum(sizes(ds)) ==> below(node(is_and, fl), node(is_and, ds)),
{
    if !is_and {
        lemma_weights_at_least_two(ds);
        lemma_product_at_least(weights(ds), 2);
        lemma_weights_at_least_two(fl);
        lemma_product_at_least(weights(fl), 2);
        if fl.len() == 0 {
            assert(sizes(fl) =~= Seq::<nat>::empty());
            lemma_sizes_at_least_one(ds);
        }
    }
}

/// Merging nested nodes brings in no literal.
pub proof fn lemma_flatten_mentions(is_and: bool, cs: Seq<Formula>, i: int, l: Literal)
    requires
        0 <= i <= cs.len(),
        mentions(node(is_and, flatten(is_and, cs, i)), l),
    ensures
        mentions(node(is_and, cs), l),
    decreases sum(sizes(cs)) - i,
{
    if i < cs.len() {
        lemma_flatten_measure(is_and, cs, i);
        lemma_mentions(cs, l);
        if is_node(is_and, cs[i]) {
            let ys = children(cs[i]);
            lemma_mentions(ys, l);
            if ys.len() == 0 {
                let ns = cs.remove(i);
                lemma_flatten_mentions(is_and, ns, i, l);
                lemma_mentions(ns, l);
                let j = choose|j: int| 0 <= j < ns.len() && mentions(#[trigger] ns[j], l);
                if j < i {
                    assert(ns[j] == cs[j]);
                } else {
                    assert(ns[j] == cs[j + 1]);
                }
            } else {
                let ns = cs.update(i, ys.last()) + ys.drop_last();
                lemma_flatten_mentions(is_and, ns, i + 1, l);
                lemma_mentions(ns, l);
                let j = choose|j: int| 0 <= j < ns.len() && mentions(#[trigger] ns[j], l);
                if j == i {
                    assert(ns[j] == ys[ys.len() - 1]);
                    assert(mentions(cs[i], l));
                } else if j < cs.len() {
                    assert(ns[j] == cs[j]);
                } else {
                    assert(ns[j] == ys[j - cs.len()]);
                    assert(mentions(cs[i], l));
                }
            }
        } else {
            lemma_flatten_mentions(is_and, cs, i + 1, l);
        }
    }
}

/// Distribution brings in no literal.
pub proof fn lemma_distribute_mentions(cs: Seq<Formula>, l: Literal)
    requires
        mentions(Formula::Or(distribute(cs)), l),
    ensures
        mentions(Formula::Or(cs), l),
{
    lemma_first_and(cs);
    if first_and(cs) is Some && cs.len() >= 2 {
        let k = first_and(cs).unwrap();
        let n = cs.len() as int;
        let args = children(cs[k]);
        let rest = cs.update(k, cs.last()).drop_last();
        let other = rest.last();
        let sp = spread(other, args);
        let d = rest.drop_last().push(Formula::And(sp));
        lemma_mentions(d, l);
        lemma_mentions(cs, l);
        lemma_mentions(sp, l);
        lemma_mentions(args, l);
        let j = choose|j: int| 0 <= j < d.len() && mentions(#[trigger] d[j], l);
        if j < n - 2 {
            assert(d[j] == rest[j]);
            if j == k {
                assert(rest[j] == cs[n - 1]);
            } else {
                assert(rest[j] == cs[j]);
            }
        } else {
            let m = choose|m: int| 0 <= m < sp.len() && mentions(#[trigger] sp[m], l);
            let pair = seq![other, args[m]];
            lemma_mentions(pair, l);
            let w = choose|w: int| 0 <= w < pair.len() && mentions(#[trigger] pair[w], l);
            if w == 0 {
                assert(other == rest[n - 2]);
                if n - 2 == k {
                    assert(other == cs[n - 1]);
                } else {
                    assert(other == cs[n - 2]);
                }
            } else {
                assert(pair[w] == args[m]);
                assert(mentions(cs[k], l));
            }
        }
    }
}

/// One pass brings in no literal.
pub proof fn lemma_rewrite_mentions(f: Formula, l: Literal)
    requires
        mentions(rewrite(f).0, l),
    ensures
        mentions(f, l),
    decreases f,
{
    match f {
        Formula::Atom(_) => {},
        Formula::And(cs) => {
            lemma_rewrite_node_mentions(true, cs, l);
        },
        Formula::Or(cs) => {
            lemma_rewrite_node_mentions(false, cs, l);
        },
    }
}

/// `lemma_rewrite_mentions` for a node, given its members.
pub proof fn lemma_rewrite_node_mentions(is_and: bool, cs: Seq<Formula>, l: Literal)
    requires
        mentions(rewrite(node(is_and, cs)).0, l),
    ensures
        mentions(node(is_and, cs), l),
    decreases cs,
{
    let rs = rewrite_each(cs);
    let ds = formulas(rs);
    lemma_mentions(cs, l);
    lemma_mentions(ds, l);
    assert forall|i: int| 0 <= i < cs.len() && mentions(#[trigger] ds[i], l) implies mentions(
        cs[i],
        l,
    ) by {
        assert(rs[i] == rewrite(cs[i]));
        lemma_rewrite_mentions(cs[i], l);
    }
    let settled = if is_and {
        all_clauses(rs)
    } else {
        all_literals(rs)
    };
    if settled {
        let i = choose|i: int| 0 <= i < ds.len() && mentions(#[trigger] ds[i], l);
        assert(mentions(cs[i], l));
    } else if ds.len() == 1 {
        assert(mentions(ds[0], l));
        assert(mentions(cs[0], l));
    } else {
        let fl = flatten(is_and, ds, 0);
        if !is_and {
            lemma_distribute_mentions(fl, l);
        }
        lemma_flatten_mentions(is_and, ds, 0, l);
        let i = choose|i: int| 0 <= i < ds.len() && mentions(#[trigger] ds[i], l);
        assert(mentions(cs[i], l));
    }
}

} // verus!
