//! Propositional formulas as mathematical trees: their meaning under an
//! assignment and the measures by which rewriting to normal form terminates.

use crate::series::{all_at_least, lemma_product_at_least, product, sum};
use vstd::prelude::*;

verus! {

/// A Boolean variable, named by its positive index.
#[derive(Debug, Clone, Copy, PartialEq, Eq, PartialOrd, Ord, Structural)]
pub struct Variable(pub usize);

/// A variable or its negation.
#[derive(Debug, Clone, Copy, PartialEq, Eq, PartialOrd, Ord, Structural)]
pub enum Literal {
    Variable(Variable),
    Negation(Variable),
}

impl core::ops::Not for Variable {
    type Output = Literal;

    /// The negation of the variable.
    fn not(self) -> (literal: Literal) {
        Literal::Negation(self)
    }
}

impl vstd::std_specs::ops::NotSpecImpl for Variable {
    open spec fn obeys_not_spec() -> bool {
        true
    }

    open spec fn not_req(self) -> bool {
        true
    }

    open spec fn not_spec(self) -> Literal {
        Literal::Negation(self)
    }
}

impl From<Variable> for Literal {
    /// The variable as a literal.
    fn from(var: Variable) -> (literal: Literal) {
        Literal::Variable(var)
    }
}

impl vstd::std_specs::convert::FromSpecImpl<Variable> for Literal {
    open spec fn obeys_from_spec() -> bool {
        true
    }

    open spec fn from_spec(var: Variable) -> Literal {
        Literal::Variable(var)
    }
}

/// A truth assignment: the value of each variable, by index.
pub type Assignment = spec_fn(usize) -> bool;

/// The mathematical tree that an expression stands for.
pub enum Formula {
    And(Seq<Formula>),
    Or(Seq<Formula>),
    Atom(Literal),
}

/// The truth value of a literal under `a`.
pub open spec fn literal_holds(l: Literal, a: Assignment) -> bool {
    match l {
        Literal::Variable(v) => a(v.0),
        Literal::Negation(v) => !a(v.0),
    }
}

/// The truth value of a formula under `a`. An empty conjunction is true, an
/// empty disjunction false.
pub open spec fn holds(f: Formula, a: Assignment) -> bool
    decreases f, 0nat,
{
    match f {
        Formula::And(fs) => all_hold(fs, fs.len(), a),
        Formula::Or(fs) => any_holds(fs, fs.len(), a),
        Formula::Atom(l) => literal_holds(l, a),
    }
}

/// Each of the first `n` members of `fs` holds under `a`.
pub open spec fn all_hold(fs: Seq<Formula>, n: nat, a: Assignment) -> bool
    decreases fs, n,
{
    if n == 0 || n > fs.len() {
        true
    } else {
        all_hold(fs, (n - 1) as nat, a) && holds(fs[n - 1], a)
    }
}

/// One of the first `n` members of `fs` holds under `a`.
pub open spec fn any_holds(fs: Seq<Formula>, n: nat, a: Assignment) -> bool
    decreases fs, n,
{
    if n == 0 || n > fs.len() {
        false
    } else {
        any_holds(fs, (n - 1) as nat, a) || holds(fs[n - 1], a)
    }
}

/// The first `n` members all hold exactly when each of them holds.
pub proof fn lemma_all_hold(fs: Seq<Formula>, n: nat, a: Assignment)
    requires
        n <= fs.len(),
    ensures
        all_hold(fs, n, a) <==> forall|i: int| 0 <= i < n ==> holds(#[trigger] fs[i], a),
    decreases n,
{
    if n > 0 {
        lemma_all_hold(fs, (n - 1) as nat, a);
    }
}

/// One of the first `n` members holds exactly when some one of them does.
pub proof fn lemma_any_holds(fs: Seq<Formula>, n: nat, a: Assignment)
    requires
        n <= fs.len(),
    ensures
        any_holds(fs, n, a) <==> exists|i: int| 0 <= i < n && holds(#[trigger] fs[i], a),
    decreases n,
{
    if n > 0 {
        lemma_any_holds(fs, (n - 1) as nat, a);
    }
}

/// A conjunction holds exactly when every member does.
pub proof fn lemma_holds_and(fs: Seq<Formula>, a: Assignment)
    ensures
        holds(Formula::And(fs), a) <==> forall|i: int|
            0 <= i < fs.len() ==> holds(#[trigger] fs[i], a),
{
    lemma_all_hold(fs, fs.len(), a);
}

/// A disjunction holds exactly when some member does.
pub proof fn lemma_holds_or(fs: Seq<Formula>, a: Assignment)
    ensures
        holds(Formula::Or(fs), a) <==> exists|i: int|
            0 <= i < fs.len() && holds(#[trigger] fs[i], a),
{
    lemma_any_holds(fs, fs.len(), a);
}

/// Two formulas with the same truth value under every assignment.
pub open spec fn equivalent(f: Formula, g: Formula) -> bool {
    forall|a: Assignment| holds(f, a) == holds(g, a)
}

/// The direct subformulas of `f`.
pub open spec fn children(f: Formula) -> Seq<Formula> {
    match f {
        Formula::And(fs) => fs,
        Formula::Or(fs) => fs,
        Formula::Atom(_) => Seq::empty(),
    }
}

/// The number of nodes of each member of `fs`.
pub open spec fn sizes(fs: Seq<Formula>) -> Seq<nat>
    decreases fs,
{
    Seq::new(fs.len(), |i: int| if 0 <= i < fs.len() { size(fs[i]) } else { 0 })
}

/// The number of nodes of `f`.
pub open spec fn size(f: Formula) -> nat
    decreases f,
{
    match f {
        Formula::And(fs) => 1 + sum(sizes(fs)),
        Formula::Or(fs) => 1 + sum(sizes(fs)),
        Formula::Atom(_) => 1,
    }
}

/// The weight of each member of `fs`.
pub open spec fn weights(fs: Seq<Formula>) -> Seq<nat>
    decreases fs,
{
    Seq::new(fs.len(), |i: int| if 0 <= i < fs.len() { weight(fs[i]) } else { 0 })
}

/// A measure that distributing a disjunction over a conjunction strictly
/// lowers: conjunctions add the weights of their members, disjunctions
/// multiply them. No formula weighs less than 2.
pub open spec fn weight(f: Formula) -> nat
    decreases f,
{
    match f {
        Formula::And(fs) => 2 + sum(weights(fs)),
        Formula::Or(fs) => if fs.len() == 0 {
            2
        } else {
            product(weights(fs))
        },
        Formula::Atom(_) => 2,
    }
}

/// `g` is no larger than `f` in the order by weight, then by size.
pub open spec fn not_above(g: Formula, f: Formula) -> bool {
    weight(g) < weight(f) || (weight(g) == weight(f) && size(g) <= size(f))
}

/// `g` is strictly smaller than `f` in the order by weight, then by size.
pub open spec fn below(g: Formula, f: Formula) -> bool {
    weight(g) < weight(f) || (weight(g) == weight(f) && size(g) < size(f))
}

/// A member of a formula is smaller than the formula: recursion over the
/// members ends.
pub proof fn lemma_child_decreases(f: Formula, i: int)
    requires
        0 <= i < children(f).len(),
    ensures
        decreases_to!(f => children(f)[i]),
{
    match f {
        Formula::And(fs) => {
            assert(decreases_to!(f => fs));
            assert(decreases_to!(fs => fs[i]));
        },
        Formula::Or(fs) => {
            assert(decreases_to!(f => fs));
            assert(decreases_to!(fs => fs[i]));
        },
        Formula::Atom(_) => {},
    }
}

/// No formula weighs less than 2.
pub proof fn lemma_weight_at_least_two(f: Formula)
    ensures
        weight(f) >= 2,
    decreases f,
{
    match f {
        Formula::Or(fs) => {
            if fs.len() > 0 {
                lemma_weights_at_least_two(fs);
                lemma_product_at_least(weights(fs), 2);
            }
        },
        _ => {},
    }
}

/// No member weighs less than 2.
pub proof fn lemma_weights_at_least_two(fs: Seq<Formula>)
    ensures
        all_at_least(weights(fs), 2),
        all_at_least(weights(fs), 1),
    decreases fs,
{
    assert forall|i: int| 0 <= i < weights(fs).len() implies #[trigger] weights(fs)[i] >= 2 by {
        lemma_weight_at_least_two(fs[i]);
    }
}

/// `l` occurs in `f`.
pub open spec fn mentions(f: Formula, l: Literal) -> bool
    decreases f, 0nat,
{
    match f {
        Formula::And(fs) => any_mentions(fs, fs.len(), l),
        Formula::Or(fs) => any_mentions(fs, fs.len(), l),
        Formula::Atom(x) => x == l,
    }
}

/// `l` occurs in one of the first `n` members of `fs`.
pub open spec fn any_mentions(fs: Seq<Formula>, n: nat, l: Literal) -> bool
    decreases fs, n,
{
    if n == 0 || n > fs.len() {
        false
    } else {
        any_mentions(fs, (n - 1) as nat, l) || mentions(fs[n - 1], l)
    }
}

/// A literal occurs in the first `n` members exactly when it occurs in one of
/// them.
pub proof fn lemma_any_mentions(fs: Seq<Formula>, n: nat, l: Literal)
    requires
        n <= fs.len(),
    ensures
        any_mentions(fs, n, l) <==> exists|i: int| 0 <= i < n && mentions(#[trigger] fs[i], l),
    decreases n,
{
    if n > 0 {
        lemma_any_mentions(fs, (n - 1) as nat, l);
    }
}

/// A literal occurs in a conjunction or disjunction exactly when it occurs
/// in a member.
pub proof fn lemma_mentions(fs: Seq<Formula>, l: Literal)
    ensures
        mentions(Formula::And(fs), l) <==> exists|i: int|
            0 <= i < fs.len() && mentions(#[trigger] fs[i], l),
        mentions(Formula::Or(fs), l) <==> exists|i: int|
            0 <= i < fs.len() && mentions(#[trigger] fs[i], l),
{
    lemma_any_mentions(fs, fs.len(), l);
}

} // verus!
