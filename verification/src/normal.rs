//! Conjunctive normal form: the result of rewriting until nothing is left to
//! do, read off as a list of clauses, and what holds of it.

use crate::clause::{
    canonical, clause_holds, clauses_hold, lemma_canonical, lemma_canonical_meaning,
    lemma_canonical_of_sorted, strictly_sorted,
};
use crate::formula::{
    children, equivalent, holds, lemma_holds_and, lemma_holds_or, lemma_mentions,
    literal_holds, mentions, size, weight, Assignment, Formula, Literal,
};
use crate::rewrite::{
    is_clause_node, is_cnf_node, is_normal, lemma_rewrite, lemma_rewrite_mentions, rewrite,
    VisitorStatus,
};
use vstd::prelude::*;

verus! {

/// The formula that the passes end with: `f` rewritten until a pass reports
/// a literal, a clause or a conjunctive normal form.
pub open spec fn normalize(f: Formula) -> Formula
    decreases weight(f), size(f),
{
    let r = rewrite(f);
    if r.1 == VisitorStatus::Other {
        proof {
            lemma_rewrite(f);
        }
        normalize(r.0)
    } else {
        r.0
    }
}

/// The literals of a sequence of literal formulas.
pub open spec fn atoms(fs: Seq<Formula>) -> Seq<Literal> {
    Seq::new(fs.len(), |i: int| fs[i]->Atom_0)
}

/// The clause that a literal or a disjunction of literals stands for: the
/// literal alone, or the literals of the disjunction without repetition and
/// in order.
pub open spec fn clause_of(f: Formula) -> Seq<Literal> {
    match f {
        Formula::Atom(l) => seq![l],
        Formula::Or(fs) => canonical(atoms(fs)),
        Formula::And(_) => Seq::empty(),
    }
}

/// The clauses of a formula in normal form: one for each member of a
/// conjunction, in order; one in all for a clause or a literal.
pub open spec fn clauses_of(g: Formula) -> Seq<Seq<Literal>> {
    match g {
        Formula::And(cs) => Seq::new(cs.len(), |i: int| clause_of(cs[i])),
        _ => seq![clause_of(g)],
    }
}

/// The conjunctive normal form of `f`, as a list of clauses.
pub open spec fn cnf(f: Formula) -> Seq<Seq<Literal>> {
    clauses_of(normalize(f))
}

/// The conjunction of clauses as a formula.
pub open spec fn formula_of(cls: Seq<Seq<Literal>>) -> Formula {
    Formula::And(
        Seq::new(
            cls.len(),
            |i: int| Formula::Or(Seq::new(cls[i].len(), |j: int| Formula::Atom(cls[i][j]))),
        ),
    )
}

/// Rewriting ends in a normal form that means what the formula meant.
pub proof fn lemma_normalize(f: Formula)
    ensures
        is_normal(normalize(f)),
        equivalent(normalize(f), f),
    decreases weight(f), size(f),
{
    lemma_rewrite(f);
    let r = rewrite(f);
    if r.1 == VisitorStatus::Other {
        lemma_normalize(r.0);
        assert forall|a: Assignment| holds(normalize(f), a) == holds(f, a) by {
            assert(equivalent(normalize(r.0), r.0));
            assert(equivalent(r.0, f));
        }
    }
}

/// A literal or a disjunction of literals means what its clause means.
pub proof fn lemma_clause_meaning(f: Formula, a: Assignment)
    requires
        f is Atom || is_clause_node(f),
    ensures
        clause_holds(clause_of(f), a) == holds(f, a),
{
    match f {
        Formula::Atom(l) => {
            let c = seq![l];
            assert(c[0] == l);
            if clause_holds(c, a) {
                let i = choose|i: int| 0 <= i < c.len() && literal_holds(#[trigger] c[i], a);
                assert(i == 0);
            }
        },
        Formula::Or(fs) => {
            let ls = atoms(fs);
            lemma_canonical_meaning(ls, a);
            lemma_holds_or(fs, a);
            assert forall|i: int| 0 <= i < fs.len() implies holds(#[trigger] fs[i], a)
                == literal_holds(ls[i], a) by {
                assert(children(f)[i] is Atom);
            }
            if clause_holds(ls, a) {
                let i = choose|i: int| 0 <= i < ls.len() && literal_holds(#[trigger] ls[i], a);
                assert(holds(fs[i], a));
            }
            if holds(f, a) {
                let i = choose|i: int| 0 <= i < fs.len() && holds(#[trigger] fs[i], a);
                assert(literal_holds(ls[i], a));
            }
        },
        Formula::And(_) => {},
    }
}

/// A formula in normal form means what its clauses mean together.
pub proof fn lemma_clauses_meaning(g: Formula, a: Assignment)
    requires
        is_normal(g),
    ensures
        clauses_hold(clauses_of(g), a) == holds(g, a),
{
    let cls = clauses_of(g);
    match g {
        Formula::And(cs) => {
            lemma_holds_and(cs, a);
            assert forall|i: int| 0 <= i < cs.len() implies clause_holds(#[trigger] cls[i], a)
                == holds(cs[i], a) by {
                assert(children(g)[i] is Atom || is_clause_node(children(g)[i]));
                lemma_clause_meaning(cs[i], a);
            }
            if holds(g, a) {
                assert forall|i: int| 0 <= i < cls.len() implies clause_holds(
                    #[trigger] cls[i],
                    a,
                ) by {
                    assert(holds(cs[i], a));
                }
            }
            if clauses_hold(cls, a) {
                assert forall|i: int| 0 <= i < cs.len() implies holds(#[trigger] cs[i], a) by {
                    assert(clause_holds(cls[i], a));
                }
            }
        },
        _ => {
            lemma_clause_meaning(g, a);
            assert(cls[0] == clause_of(g));
        },
    }
}

/// The conjunctive normal form of a formula holds under exactly the
/// assignments under which the formula holds.
pub proof fn lemma_cnf_equivalent(f: Formula)
    ensures
        forall|a: Assignment| clauses_hold(cnf(f), a) == holds(f, a),
{
    lemma_normalize(f);
    assert forall|a: Assignment| clauses_hold(cnf(f), a) == holds(f, a) by {
        lemma_clauses_meaning(normalize(f), a);
        assert(equivalent(normalize(f), f));
    }
}

/// A formula already in normal form is left as it stands: its conjunctive
/// normal form is the list of its own clauses.
pub proof fn lemma_normal_is_fixed(f: Formula)
    requires
        is_normal(f),
    ensures
        normalize(f) == f,
        cnf(f) == clauses_of(f),
{
    lemma_rewrite(f);
}

/// Each clause of a conjunctive normal form is ordered, so that no literal
/// occurs twice in it.
pub proof fn lemma_cnf_sorted(f: Formula)
    ensures
        forall|i: int| 0 <= i < cnf(f).len() ==> strictly_sorted(#[trigger] cnf(f)[i]),
{
    let g = normalize(f);
    assert forall|i: int| 0 <= i < cnf(f).len() implies strictly_sorted(#[trigger] cnf(f)[i]) by {
        let h = match g {
            Formula::And(cs) => cs[i],
            _ => g,
        };
        assert(cnf(f)[i] == clause_of(h));
        match h {
            Formula::Or(fs) => {
                lemma_canonical(atoms(fs));
            },
            _ => {},
        }
    }
}

/// Converting the conjunctive normal form of a formula once more gives the
/// same list of clauses.
pub proof fn lemma_cnf_idempotent(f: Formula)
    ensures
        cnf(formula_of(cnf(f))) == cnf(f),
{
    let cls = cnf(f);
    let g = formula_of(cls);
    let members = children(g);
    assert forall|i: int| 0 <= i < members.len() implies (#[trigger] members[i] is Atom
        || is_clause_node(members[i])) by {
        let m = members[i];
        assert forall|j: int| 0 <= j < children(m).len() implies #[trigger] children(
            m,
        )[j] is Atom by {}
    }
    assert(is_cnf_node(g));
    lemma_normal_is_fixed(g);
    lemma_cnf_sorted(f);
    assert(clauses_of(g) =~= cls) by {
        assert forall|i: int| 0 <= i < cls.len() implies clauses_of(g)[i] == cls[i] by {
            assert(atoms(children(members[i])) =~= cls[i]);
            assert(strictly_sorted(cls[i]));
            lemma_canonical_of_sorted(cls[i]);
        }
    }
}

/// Rewriting brings in no literal.
pub proof fn lemma_normalize_mentions(f: Formula, l: Literal)
    requires
        mentions(normalize(f), l),
    ensures
        mentions(f, l),
    decreases weight(f), size(f),
{
    lemma_rewrite(f);
    let r = rewrite(f);
    if r.1 == VisitorStatus::Other {
        lemma_normalize_mentions(r.0, l);
    }
    lemma_rewrite_mentions(f, l);
}

/// Every literal of the conjunctive normal form of a formula occurs in the
/// formula.
pub proof fn lemma_cnf_mentions(f: Formula, i: int, l: Literal)
    requires
        0 <= i < cnf(f).len(),
        cnf(f)[i].contains(l),
    ensures
        mentions(f, l),
{
    let g = normalize(f);
    lemma_normalize(f);
    let h = match g {
        Formula::And(cs) => cs[i],
        _ => g,
    };
    assert(cnf(f)[i] == clause_of(h));
    assert(mentions(h, l)) by {
        match h {
            Formula::Atom(x) => {
                let c = seq![x];
                let k = choose|k: int| 0 <= k < c.len() && c[k] == l;
                assert(c[k] == x);
            },
            Formula::Or(fs) => {
                lemma_canonical(atoms(fs));
                assert(atoms(fs).contains(l));
                let k = choose|k: int| 0 <= k < atoms(fs).len() && atoms(fs)[k] == l;
                if g is And {
                    assert(children(g)[i] is Atom || is_clause_node(children(g)[i]));
                }
                assert(children(h)[k] is Atom);
                assert(fs[k] == Formula::Atom(l));
                lemma_mentions(fs, l);
            },
            Formula::And(_) => {
                assert(cnf(f)[i] =~= Seq::<Literal>::empty());
            },
        }
    }
    match g {
        Formula::And(cs) => {
            lemma_mentions(cs, l);
        },
        _ => {},
    }
    lemma_normalize_mentions(f, l);
}

} // verus!
