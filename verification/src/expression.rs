//! Propositional expressions and their conversion to conjunctive normal
//! form by repeated bottom-up rewriting.

use crate::clause::{
    canonical, clause_views, clauses_hold, insert_sorted, strictly_sorted, Clause,
};
use crate::formula::{
    children, holds, lemma_child_decreases, size, sizes, weight, Assignment, Formula, Literal,
};
use crate::normal::{
    atoms, clause_of, clauses_of, cnf, lemma_cnf_equivalent, lemma_cnf_sorted, normalize,
};
use crate::rewrite::{
    all_clauses, all_literals, distribute, first_and, flatten, formulas, is_clause_node,
    is_cnf_node, is_node, lemma_first_and, lemma_flatten_measure, lemma_rewrite, node, rewrite,
    rewrite_each, spread, VisitorStatus,
};
use crate::series::sum;
use vstd::pervasive::unreached;
use vstd::prelude::*;

verus! {

/// A simple propositional logic expression.
#[derive(Debug)]
pub enum Expression {
    Conjunction(Vec<Expression>),
    Disjunction(Vec<Expression>),
    Literal(Literal),
}

/// The formulas that the members of `v` stand for.
pub open spec fn views(v: Seq<Expression>) -> Seq<Formula>
    decreases v,
{
    Seq::new(
        v.len(),
        |i: int|
            if 0 <= i < v.len() {
                v[i].view()
            } else {
                Formula::And(Seq::empty())
            },
    )
}

impl View for Expression {
    type V = Formula;

    open spec fn view(&self) -> Formula
        decreases self,
    {
        match self {
            Expression::Conjunction(v) => Formula::And(views(v@)),
            Expression::Disjunction(v) => Formula::Or(views(v@)),
            Expression::Literal(l) => Formula::Atom(*l),
        }
    }
}

/// A copy of each member of `v`.
fn clone_members(v: &Vec<Expression>, Ghost(parent): Ghost<Formula>) -> (out: Vec<Expression>)
    requires
        children(parent) == views(v@),
    ensures
        views(out@) == views(v@),
    decreases parent, 0nat,
{
    let mut out: Vec<Expression> = Vec::new();
    let mut i: usize = 0;
    while i < v.len()
        invariant
            i <= v.len(),
            out.len() == i,
            children(parent) == views(v@),
            forall|j: int| 0 <= j < i ==> out[j]@ == v[j]@,
        decreases v.len() - i,
    {
        proof {
            lemma_child_decreases(parent, i as int);
        }
        let c = v[i].clone();
        out.push(c);
        i += 1;
    }
    assert(views(out@) =~= views(v@));
    out
}

impl Clone for Expression {
    fn clone(&self) -> (r: Expression)
        ensures
            r@ == self@,
        decreases self@, 1nat,
    {
        match self {
            Expression::Conjunction(v) => Expression::Conjunction(clone_members(v, Ghost(self@))),
            Expression::Disjunction(v) => Expression::Disjunction(clone_members(v, Ghost(self@))),
            Expression::Literal(l) => Expression::Literal(*l),
        }
    }
}

/// The exec form of a position among the members of a node.
pub open spec fn as_position(first: Option<usize>) -> Option<int> {
    match first {
        Some(k) => Some(k as int),
        None => None,
    }
}

/// Merges nested nodes of the parent's kind into the members of the parent
/// and finds the first conjunction among the members that result.
fn flatten_members(exprs: &mut Vec<Expression>, is_and: bool) -> (first: Option<usize>)
    ensures
        views(final(exprs)@) == flatten(is_and, views(old(exprs)@), 0),
        as_position(first) == first_and(views(final(exprs)@)),
{
    let mut i: usize = 0;
    let mut first: Option<usize> = None;
    assert(views(exprs@).take(0) =~= Seq::<Formula>::empty());
    while i < exprs.len()
        invariant
            i <= exprs.len(),
            flatten(is_and, views(exprs@), i as int) == flatten(is_and, views(old(exprs)@), 0),
            as_position(first) == first_and(views(exprs@).take(i as int)),
        decreases sum(sizes(views(exprs@))) - i,
    {
        let ghost cs = views(exprs@);
        let ghost before = exprs@;
        proof {
            lemma_flatten_measure(is_and, cs, i as int);
        }
        let nested = match &exprs[i] {
            Expression::Conjunction(_) => is_and,
            Expression::Disjunction(_) => !is_and,
            Expression::Literal(_) => false,
        };
        assert(nested == is_node(is_and, cs[i as int]));
        if nested {
            let ghost ys = children(cs[i as int]);
            let popped = match &mut exprs[i] {
                Expression::Conjunction(members) => members.pop(),
                Expression::Disjunction(members) => members.pop(),
                Expression::Literal(_) => unreached(),
            };
            let ghost shrunk = exprs@[i as int];
            proof {
                assert(exprs@ =~= before.update(i as int, shrunk));
                match before[i as int] {
                    Expression::Conjunction(m) => {
                        assert(ys == views(m@));
                        assert(shrunk matches Expression::Conjunction(r) && r@ == (if m@.len()
                            > 0 {
                            m@.drop_last()
                        } else {
                            m@
                        }));
                        let r = shrunk->Conjunction_0;
                        assert(children(shrunk@) == views(r@));
                        assert(views(r@) =~= (if ys.len() > 0 {
                            ys.drop_last()
                        } else {
                            ys
                        }));
                    },
                    Expression::Disjunction(m) => {
                        assert(ys == views(m@));
                        assert(shrunk matches Expression::Disjunction(r) && r@ == (if m@.len()
                            > 0 {
                            m@.drop_last()
                        } else {
                            m@
                        }));
                        let r = shrunk->Disjunction_0;
                        assert(children(shrunk@) == views(r@));
                        assert(views(r@) =~= (if ys.len() > 0 {
                            ys.drop_last()
                        } else {
                            ys
                        }));
                    },
                    Expression::Literal(_) => {},
                }
            }
            match popped {
                Some(replacement) => {
                    assert(ys.len() > 0 && replacement@ == ys.last());
                    let is_conjunction = match &replacement {
                        Expression::Conjunction(_) => true,
                        _ => false,
                    };
                    if first.is_none() && is_conjunction {
                        first = Some(i);
                    }
                    let mut slot = replacement;
                    exprs.set_and_swap(i, &mut slot);
                    assert(slot == shrunk);
                    match slot {
                        Expression::Conjunction(mut rest) => {
                            assert(views(rest@) == children(shrunk@));
                            exprs.append(&mut rest);
                        },
                        Expression::Disjunction(mut rest) => {
                            assert(views(rest@) == children(shrunk@));
                            exprs.append(&mut rest);
                        },
                        Expression::Literal(_) => unreached(),
                    }
                    proof {
                        assert(views(exprs@) =~= cs.update(i as int, ys.last()) + ys.drop_last());
                        let now = views(exprs@);
                        assert(now.take(i + 1).drop_last() =~= cs.take(i as int));
                    }
                    i += 1;
                },
                None => {
                    assert(ys.len() == 0);
                    exprs.remove(i);
                    proof {
                        assert(views(exprs@) =~= cs.remove(i as int));
                        assert(views(exprs@).take(i as int) =~= cs.take(i as int));
                    }
                },
            }
        } else {
            let is_conjunction = match &exprs[i] {
                Expression::Conjunction(_) => true,
                _ => false,
            };
            if first.is_none() && is_conjunction {
                first = Some(i);
            }
            proof {
                assert(cs.take(i + 1).drop_last() =~= cs.take(i as int));
            }
            i += 1;
        }
    }
    assert(views(exprs@).take(i as int) =~= views(exprs@));
    first
}

/// Distributes one conjunction over the members of a disjunction, if there
/// is a conjunction among them and at least one other member.
fn distribute_members(exprs: &mut Vec<Expression>, first: Option<usize>)
    requires
        as_position(first) == first_and(views(old(exprs)@)),
    ensures
        views(final(exprs)@) == distribute(views(old(exprs)@)),
{
    let ghost cs = views(exprs@);
    proof {
        lemma_first_and(cs);
    }
    if let Some(k) = first {
        if exprs.len() >= 2 {
            let conjunction = exprs.swap_remove(k);
            let ghost rest = views(exprs@);
            assert(rest =~= cs.update(k as int, cs.last()).drop_last());
            let other = exprs.pop().unwrap();
            assert(views(exprs@) =~= rest.drop_last());
            assert(other@ == rest.last());
            assert(cs[k as int] is And && conjunction@ == cs[k as int]);
            let args = match conjunction {
                Expression::Conjunction(args) => args,
                _ => unreached(),
            };
            let ghost ys = views(args@);
            assert(ys == children(cs[k as int]));
            let mut members: Vec<Expression> = Vec::new();
            for arg in it: args
                invariant
                    it.seq() == args@,
                    ys == views(args@),
                    members.len() == it.index(),
                    forall|j: int|
                        0 <= j < it.index() ==> (#[trigger] members[j])@ == spread(other@, ys)[j],
            {
                let ghost n = it.index();
                assert(arg@ == ys[n]);
                let pair = vec![other.clone(), arg];
                assert(views(pair@) =~= seq![other@, ys[n]]);
                members.push(Expression::Disjunction(pair));
            }
            assert(views(members@) =~= spread(other@, ys));
            exprs.push(Expression::Conjunction(members));
            assert(views(exprs@) =~= rest.drop_last().push(
                Formula::And(spread(rest.last(), children(cs[k as int]))),
            ));
        }
    }
}

/// One bottom-up pass of the rewrite rules over `expr`. Reports whether the
/// expression is a literal, a clause or in conjunctive normal form already,
/// and otherwise rewrites it in place.
pub fn rewrite_visitor(expr: &mut Expression) -> (status: VisitorStatus)
    ensures
        (final(expr)@, status) == rewrite(old(expr)@),
    decreases old(expr)@,
{
    match expr {
        Expression::Conjunction(exprs) => {
            let ghost cs = views(exprs@);
            let ghost rs = rewrite_each(cs);
            let mut settled = true;
            let mut i: usize = 0;
            while i < exprs.len()
                invariant
                    i <= exprs.len(),
                    exprs.len() == cs.len(),
                    old(expr)@ == Formula::And(cs),
                    rs == rewrite_each(cs),
                    forall|j: int| 0 <= j < i ==> (#[trigger] exprs[j])@ == rs[j].0,
                    forall|j: int| i <= j < exprs.len() ==> (#[trigger] exprs[j])@ == cs[j],
                    settled == all_clauses(rs.take(i as int)),
                decreases exprs.len() - i,
            {
                proof {
                    lemma_child_decreases(old(expr)@, i as int);
                }
                let status = rewrite_visitor(&mut exprs[i]);
                assert(status == rs[i as int].1);
                match status {
                    VisitorStatus::CnfClause => {},
                    VisitorStatus::Literal => {},
                    _ => {
                        settled = false;
                    },
                }
                proof {
                    let t = rs.take(i + 1);
                    assert(t[i as int] == rs[i as int]);
                    assert forall|j: int| 0 <= j < i implies t[j] == rs.take(i as int)[j] by {}
                    if all_clauses(rs.take(i as int)) && status != VisitorStatus::Other && status
                        != VisitorStatus::Cnf {
                        assert(all_clauses(t));
                    }
                    if all_clauses(t) {
                        assert forall|j: int| 0 <= j < i implies ((#[trigger] rs.take(
                            i as int,
                        )[j]).1 == VisitorStatus::Literal || rs.take(i as int)[j].1
                            == VisitorStatus::CnfClause) by {
                            assert(t[j] == rs.take(i as int)[j]);
                        }
                    }
                }
                i += 1;
            }
            assert(rs.take(i as int) =~= rs);
            assert(views(exprs@) =~= formulas(rs));
            if settled {
                return VisitorStatus::Cnf;
            }
            if exprs.len() == 1 {
                let only = exprs.pop().unwrap();
                *expr = only;
                return VisitorStatus::Other;
            }
            let _ = flatten_members(exprs, true);
            VisitorStatus::Other
        },
        Expression::Disjunction(exprs) => {
            let ghost cs = views(exprs@);
            let ghost rs = rewrite_each(cs);
            let mut settled = true;
            let mut i: usize = 0;
            while i < exprs.len()
                invariant
                    i <= exprs.len(),
                    exprs.len() == cs.len(),
                    old(expr)@ == Formula::Or(cs),
                    rs == rewrite_each(cs),
                    forall|j: int| 0 <= j < i ==> (#[trigger] exprs[j])@ == rs[j].0,
                    forall|j: int| i <= j < exprs.len() ==> (#[trigger] exprs[j])@ == cs[j],
                    settled == all_literals(rs.take(i as int)),
                decreases exprs.len() - i,
            {
                proof {
                    lemma_child_decreases(old(expr)@, i as int);
                }
                let status = rewrite_visitor(&mut exprs[i]);
                assert(status == rs[i as int].1);
                match status {
                    VisitorStatus::Literal => {},
                    _ => {
                        settled = false;
                    },
                }
                proof {
                    let t = rs.take(i + 1);
                    assert(t[i as int] == rs[i as int]);
                    assert forall|j: int| 0 <= j < i implies t[j] == rs.take(i as int)[j] by {}
                    if all_literals(rs.take(i as int)) && status == VisitorStatus::Literal {
                        assert(all_literals(t));
                    }
                    if all_literals(t) {
                        assert forall|j: int| 0 <= j < i implies (#[trigger] rs.take(
                            i as int,
                        )[j]).1 == VisitorStatus::Literal by {
                            assert(t[j] == rs.take(i as int)[j]);
                        }
                    }
                }
                i += 1;
            }
            assert(rs.take(i as int) =~= rs);
            assert(views(exprs@) =~= formulas(rs));
            if settled {
                return VisitorStatus::CnfClause;
            }
            if exprs.len() == 1 {
                let only = exprs.pop().unwrap();
                *expr = only;
                return VisitorStatus::Other;
            }
            let first = flatten_members(exprs, false);
            distribute_members(exprs, first);
            VisitorStatus::Other
        },
        Expression::Literal(_) => VisitorStatus::Literal,
    }
}

/// The clause that a literal or a disjunction of literals stands for.
fn clause_from(expr: &Expression) -> (clause: Clause)
    requires
        expr@ is Atom || is_clause_node(expr@),
    ensures
        clause@ == clause_of(expr@),
{
    let mut literals: Vec<Literal> = Vec::new();
    match expr {
        Expression::Literal(literal) => {
            literals.push(*literal);
            assert(literals@ =~= seq![*literal]);
        },
        Expression::Disjunction(args) => {
            // deduplicate and sort the literals of the disjunction
            let ghost ls = atoms(views(args@));
            let mut i: usize = 0;
            assert(ls.take(0) =~= Seq::<Literal>::empty());
            while i < args.len()
                invariant
                    i <= args.len(),
                    ls == atoms(views(args@)),
                    is_clause_node(expr@),
                    children(expr@) == views(args@),
                    literals@ == canonical(ls.take(i as int)),
                decreases args.len() - i,
            {
                assert(children(expr@)[i as int] is Atom);
                assert(ls.take(i + 1).drop_last() =~= ls.take(i as int));
                match &args[i] {
                    Expression::Literal(literal) => {
                        insert_sorted(&mut literals, *literal);
                    },
                    _ => unreached(),
                }
                i += 1;
            }
            assert(ls.take(i as int) =~= ls);
        },
        Expression::Conjunction(_) => unreached(),
    }
    Clause { literals }
}

impl Expression {
    /// Converts the expression to conjunctive normal form: rewrites it pass
    /// by pass until a pass finds nothing left to do, then reads off the
    /// clauses, each without repeated literals and in order.
    pub fn to_cnf(self) -> (clauses: Vec<Clause>)
        ensures
            clause_views(clauses@) == cnf(self@),
            forall|a: Assignment| clauses_hold(clause_views(clauses@), a) == holds(self@, a),
            forall|i: int| 0 <= i < clauses@.len() ==> strictly_sorted(#[trigger] clauses@[i]@),
    {
        let mut expr = self;
        let ghost mut previous = expr@;
        let mut status = rewrite_visitor(&mut expr);
        loop
            invariant
                (expr@, status) == rewrite(previous),
                normalize(previous) == normalize(self@),
            ensures
                status != VisitorStatus::Other,
            decreases weight(previous), size(previous),
        {
            match status {
                VisitorStatus::Other => {},
                _ => {
                    break ;
                },
            }
            proof {
                lemma_rewrite(previous);
                previous = expr@;
            }
            status = rewrite_visitor(&mut expr);
        }
        proof {
            lemma_rewrite(previous);
        }
        assert(expr@ == normalize(self@));
        let mut clauses: Vec<Clause> = Vec::new();
        match &expr {
            Expression::Conjunction(members) => {
                let mut i: usize = 0;
                while i < members.len()
                    invariant
                        i <= members.len(),
                        is_cnf_node(expr@),
                        children(expr@) == views(members@),
                        clauses.len() == i,
                        forall|j: int|
                            0 <= j < i ==> (#[trigger] clauses[j])@ == clause_of(members[j]@),
                    decreases members.len() - i,
                {
                    assert(children(expr@)[i as int] == members[i as int]@);
                    let clause = clause_from(&members[i]);
                    clauses.push(clause);
                    i += 1;
                }
                assert(clause_views(clauses@) =~= clauses_of(expr@));
            },
            _ => {
                let clause = clause_from(&expr);
                clauses.push(clause);
                assert(clause_views(clauses@) =~= clauses_of(expr@));
            },
        }
        proof {
            lemma_cnf_equivalent(self@);
            lemma_cnf_sorted(self@);
            assert forall|i: int| 0 <= i < clauses@.len() implies strictly_sorted(
                #[trigger] clauses@[i]@,
            ) by {
                assert(clause_views(clauses@)[i] == clauses@[i]@);
                assert(strictly_sorted(cnf(self@)[i]));
            }
        }
        clauses
    }
}

} // verus!
