//! Clauses: disjunctions of literals, kept without repetition and in a fixed
//! order.

use crate::formula::{literal_holds, Assignment, Literal, Variable};
use crate::ordered::{
    all_after, arranged, ascending, insert, lemma_arranged, lemma_arranged_of_ascending,
    lemma_insert_at, strict_order,
};
use vstd::prelude::*;

verus! {

/// A clause of a formula in conjunctive normal form: the disjunction of its
/// literals.
#[derive(Debug)]
pub struct Clause {
    pub literals: Vec<Literal>,
}

impl View for Clause {
    type V = Seq<Literal>;

    open spec fn view(&self) -> Seq<Literal> {
        self.literals@
    }
}

/// The literals of each clause of `cs`.
pub open spec fn clause_views(cs: Seq<Clause>) -> Seq<Seq<Literal>> {
    Seq::new(cs.len(), |i: int| cs[i]@)
}

/// Some literal of the clause holds under `a`.
pub open spec fn clause_holds(c: Seq<Literal>, a: Assignment) -> bool {
    exists|i: int| 0 <= i < c.len() && literal_holds(#[trigger] c[i], a)
}

/// Every clause holds under `a`.
pub open spec fn clauses_hold(cs: Seq<Seq<Literal>>, a: Assignment) -> bool {
    forall|i: int| 0 <= i < cs.len() ==> clause_holds(#[trigger] cs[i], a)
}

/// The order of literals within a clause: the plain variables by index, then
/// the negated ones by index.
pub open spec fn precedes(x: Literal, y: Literal) -> bool {
    match (x, y) {
        (Literal::Variable(v), Literal::Variable(w)) => v.0 < w.0,
        (Literal::Variable(_), Literal::Negation(_)) => true,
        (Literal::Negation(_), Literal::Variable(_)) => false,
        (Literal::Negation(v), Literal::Negation(w)) => v.0 < w.0,
    }
}

/// The order of literals within a clause, as a relation.
pub open spec fn literal_order() -> spec_fn(Literal, Literal) -> bool {
    |x: Literal, y: Literal| precedes(x, y)
}

/// Each literal of `s` precedes the next.
pub open spec fn strictly_sorted(s: Seq<Literal>) -> bool {
    ascending(s, literal_order())
}

/// `l` put at its place in `s`, unless `s` holds it already.
pub open spec fn insert_literal(s: Seq<Literal>, l: Literal) -> Seq<Literal> {
    insert(s, l, literal_order())
}

/// The literals of `ls` without repetition, in order.
pub open spec fn canonical(ls: Seq<Literal>) -> Seq<Literal> {
    arranged(ls, literal_order())
}

/// The order of literals is a strict total order.
pub proof fn lemma_literal_order()
    ensures
        strict_order(literal_order()),
{
    let lt = literal_order();
    assert forall|x: Literal, y: Literal| x == y || #[trigger] lt(x, y) || lt(y, x) by {
        match (x, y) {
            (Literal::Variable(v), Literal::Variable(w)) => {
                assert(v.0 == w.0 ==> v == w);
            },
            (Literal::Negation(v), Literal::Negation(w)) => {
                assert(v.0 == w.0 ==> v == w);
            },
            _ => {},
        }
    }
}

/// The canonical form is ordered and holds exactly the literals it was made
/// from; these two facts determine it.
pub proof fn lemma_canonical(ls: Seq<Literal>)
    ensures
        strictly_sorted(canonical(ls)),
        forall|x: Literal| #[trigger] canonical(ls).contains(x) <==> ls.contains(x),
{
    lemma_literal_order();
    lemma_arranged(ls, literal_order());
}

/// An ordered sequence is its own canonical form.
pub proof fn lemma_canonical_of_sorted(s: Seq<Literal>)
    requires
        strictly_sorted(s),
    ensures
        canonical(s) == s,
{
    lemma_literal_order();
    lemma_arranged_of_ascending(s, literal_order());
}

/// The canonical form of a clause means what the clause means.
pub proof fn lemma_canonical_meaning(ls: Seq<Literal>, a: Assignment)
    ensures
        clause_holds(canonical(ls), a) == clause_holds(ls, a),
{
    lemma_canonical(ls);
    let c = canonical(ls);
    if clause_holds(c, a) {
        let i = choose|i: int| 0 <= i < c.len() && literal_holds(#[trigger] c[i], a);
        assert(c.contains(c[i]));
        assert(ls.contains(c[i]));
        let k = choose|k: int| 0 <= k < ls.len() && ls[k] == c[i];
        assert(literal_holds(ls[k], a));
    }
    if clause_holds(ls, a) {
        let i = choose|i: int| 0 <= i < ls.len() && literal_holds(#[trigger] ls[i], a);
        assert(ls.contains(ls[i]));
        assert(c.contains(ls[i]));
        let k = choose|k: int| 0 <= k < c.len() && c[k] == ls[i];
        assert(literal_holds(c[k], a));
    }
}

/// Whether `x` comes before `y` in the order of literals within a clause.
pub fn literal_precedes(x: Literal, y: Literal) -> (r: bool)
    ensures
        r == precedes(x, y),
{
    match x {
        Literal::Variable(v) => match y {
            Literal::Variable(w) => v.0 < w.0,
            Literal::Negation(_) => true,
        },
        Literal::Negation(v) => match y {
            Literal::Variable(_) => false,
            Literal::Negation(w) => v.0 < w.0,
        },
    }
}

/// Puts `l` at its place in `v`, unless `v` holds it already.
pub fn insert_sorted(v: &mut Vec<Literal>, l: Literal)
    ensures
        final(v)@ == insert_literal(old(v)@, l),
{
    let mut i: usize = v.len();
    while i > 0 && v[i - 1] != l && !literal_precedes(v[i - 1], l)
        invariant
            i <= v.len(),
            v@ == old(v)@,
            all_after(v@, i as int, l, literal_order()),
        decreases i,
    {
        i -= 1;
    }
    proof {
        lemma_insert_at(v@, i as int, l, literal_order());
    }
    if i > 0 && v[i - 1] == l {
        return ;
    }
    v.insert(i, l);
}

} // verus!
