use history_checker::expression::Expression;
use history_checker::formula::{Literal, Variable};

#[test]
fn expr_to_cnf() {
    // A & (B | C) is already in CNF
    let expr = Expression::Conjunction(vec![
        Expression::Literal(Literal::Variable(Variable(1))),
        Expression::Disjunction(vec![
            Expression::Literal(Literal::Variable(Variable(2))),
            Expression::Literal(Literal::Variable(Variable(3))),
        ]),
    ]);
    let clauses = expr.to_cnf();
    assert_eq!(clauses.len(), 2);
    assert_eq!(clauses[0].literals.len(), 1);
    assert!(matches!(
        clauses[0].literals[0],
        Literal::Variable(Variable(1))
    ));
    assert_eq!(clauses[1].literals.len(), 2);
    assert!(matches!(
        clauses[1].literals[0],
        Literal::Variable(Variable(2))
    ));
    assert!(matches!(
        clauses[1].literals[1],
        Literal::Variable(Variable(3))
    ));

    // A | (B & C) <=> (A | B) & (A | C)
    let expr = Expression::Disjunction(vec![
        Expression::Literal(Literal::Variable(Variable(1))),
        Expression::Conjunction(vec![
            Expression::Literal(Literal::Variable(Variable(2))),
            Expression::Literal(Literal::Variable(Variable(3))),
        ]),
    ]);
    let clauses = expr.to_cnf();
    assert_eq!(clauses.len(), 2);
    assert_eq!(clauses[0].literals.len(), 2);
    assert!(matches!(
        clauses[0].literals[0],
        Literal::Variable(Variable(1))
    ));
    assert!(matches!(
        clauses[0].literals[1],
        Literal::Variable(Variable(2))
    ));
    assert_eq!(clauses[1].literals.len(), 2);
    assert!(matches!(
        clauses[1].literals[0],
        Literal::Variable(Variable(1))
    ));
    assert!(matches!(
        clauses[1].literals[1],
        Literal::Variable(Variable(3))
    ));

    // trivial case: A & B is already in CNF
    let expr = Expression::Conjunction(vec![
        Expression::Literal(Literal::Variable(Variable(1))),
        Expression::Literal(Literal::Variable(Variable(2))),
    ]);
    expr.to_cnf();

    // trivial case: A | B is already in CNF
    let expr = Expression::Disjunction(vec![
        Expression::Literal(Literal::Variable(Variable(1))),
        Expression::Literal(Literal::Variable(Variable(2))),
    ]);
    expr.to_cnf();

    // trivial case: A is already in CNF
    let expr = Expression::Literal(Literal::Variable(Variable(1)));
    expr.to_cnf();
}

use history_checker::clause::{insert_sorted, literal_precedes, Clause};

fn var(n: usize) -> Expression {
    Expression::Literal(Literal::Variable(Variable(n)))
}

fn not(n: usize) -> Expression {
    Expression::Literal(Literal::Negation(Variable(n)))
}

fn and(members: Vec<Expression>) -> Expression {
    Expression::Conjunction(members)
}

fn or(members: Vec<Expression>) -> Expression {
    Expression::Disjunction(members)
}

fn literals(clauses: &[Clause]) -> Vec<Vec<Literal>> {
    clauses.iter().map(|c| c.literals.clone()).collect()
}

fn holds(expr: &Expression, assignment: u32) -> bool {
    match expr {
        Expression::Conjunction(members) => members.iter().all(|m| holds(m, assignment)),
        Expression::Disjunction(members) => members.iter().any(|m| holds(m, assignment)),
        Expression::Literal(Literal::Variable(Variable(v))) => assignment & (1 << v) != 0,
        Expression::Literal(Literal::Negation(Variable(v))) => assignment & (1 << v) == 0,
    }
}

fn clauses_hold(clauses: &[Clause], assignment: u32) -> bool {
    clauses.iter().all(|clause| {
        clause.literals.iter().any(|l| match l {
            Literal::Variable(Variable(v)) => assignment & (1 << v) != 0,
            Literal::Negation(Variable(v)) => assignment & (1 << v) == 0,
        })
    })
}

fn as_expression(clauses: &[Clause]) -> Expression {
    and(clauses
        .iter()
        .map(|c| or(c.literals.iter().map(|l| Expression::Literal(*l)).collect()))
        .collect())
}

/// An expression over variables 0 to 5, made from `seed`.
fn generated(seed: &mut u64, depth: u32) -> Expression {
    *seed = seed
        .wrapping_mul(6364136223846793005)
        .wrapping_add(1442695040888963407);
    let draw = (*seed >> 33) as usize;
    if depth == 0 || draw % 5 == 0 {
        if draw % 2 == 0 {
            var(draw / 16 % 6)
        } else {
            not(draw / 16 % 6)
        }
    } else {
        let count = draw / 8 % 4;
        let members = (0..count).map(|_| generated(seed, depth - 1)).collect();
        if draw % 3 == 0 {
            and(members)
        } else {
            or(members)
        }
    }
}

#[test]
fn distribution() {
    let v = |n| Literal::Variable(Variable(n));
    // A | (B & C)
    assert_eq!(
        literals(&or(vec![var(1), and(vec![var(2), var(3)])]).to_cnf()),
        vec![vec![v(1), v(2)], vec![v(1), v(3)]]
    );
    // A & (B | C)
    assert_eq!(
        literals(&and(vec![var(1), or(vec![var(2), var(3)])]).to_cnf()),
        vec![vec![v(1)], vec![v(2), v(3)]]
    );
    // a literal alone
    assert_eq!(literals(&var(1).to_cnf()), vec![vec![v(1)]]);
    assert_eq!(
        literals(&not(4).to_cnf()),
        vec![vec![Literal::Negation(Variable(4))]]
    );
    // (A & B) | (C & D)
    let clauses = or(vec![and(vec![var(1), var(2)]), and(vec![var(3), var(4)])]).to_cnf();
    let mut found = literals(&clauses);
    found.sort();
    assert_eq!(
        found,
        vec![
            vec![v(1), v(3)],
            vec![v(1), v(4)],
            vec![v(2), v(3)],
            vec![v(2), v(4)]
        ]
    );
}

#[test]
fn literals_are_deduplicated_and_ordered() {
    // A | A | !B
    assert_eq!(
        literals(&or(vec![var(1), var(1), not(2)]).to_cnf()),
        vec![vec![
            Literal::Variable(Variable(1)),
            Literal::Negation(Variable(2))
        ]]
    );
    // plain variables come before negated ones, each kind by index
    assert_eq!(
        literals(&or(vec![not(1), var(9), not(0), var(2), var(9), not(1)]).to_cnf()),
        vec![vec![
            Literal::Variable(Variable(2)),
            Literal::Variable(Variable(9)),
            Literal::Negation(Variable(0)),
            Literal::Negation(Variable(1))
        ]]
    );
    // a literal of a conjunction is kept as it is
    assert_eq!(
        literals(&and(vec![var(3), var(3)]).to_cnf()),
        vec![
            vec![Literal::Variable(Variable(3))],
            vec![Literal::Variable(Variable(3))]
        ]
    );
}

#[test]
fn literal_order_is_that_of_the_derived_one() {
    let all = [
        Literal::Variable(Variable(0)),
        Literal::Variable(Variable(5)),
        Literal::Negation(Variable(0)),
        Literal::Negation(Variable(3)),
        Literal::Variable(Variable(usize::MAX)),
        Literal::Negation(Variable(usize::MAX)),
    ];
    for x in all {
        for y in all {
            assert_eq!(literal_precedes(x, y), x < y);
        }
    }
    let mut sorted: Vec<Literal> = Vec::new();
    for l in [all[3], all[1], all[5], all[0], all[1], all[4], all[2], all[3]] {
        insert_sorted(&mut sorted, l);
    }
    let mut expected = all.to_vec();
    expected.sort();
    assert_eq!(sorted, expected);
}

#[test]
fn empty_members() {
    // an empty conjunction is true: no clause
    assert_eq!(literals(&and(vec![]).to_cnf()), Vec::<Vec<Literal>>::new());
    // an empty disjunction is false: the empty clause
    assert_eq!(literals(&or(vec![]).to_cnf()), vec![Vec::<Literal>::new()]);
    // nested empty members disappear
    assert_eq!(
        literals(&and(vec![and(vec![]), or(vec![var(1), and(vec![])])]).to_cnf()),
        Vec::<Vec<Literal>>::new()
    );
    assert_eq!(
        literals(&or(vec![or(vec![]), var(2), or(vec![or(vec![])])]).to_cnf()),
        vec![vec![Literal::Variable(Variable(2))]]
    );
    assert_eq!(
        literals(&or(vec![and(vec![]), var(2)]).to_cnf()),
        Vec::<Vec<Literal>>::new()
    );
}

#[test]
fn conversion_keeps_the_meaning() {
    let mut seed = 42u64;
    for _ in 0..300 {
        let expr = generated(&mut seed, 4);
        let clauses = expr.clone().to_cnf();
        for assignment in 0..64u32 {
            assert_eq!(
                clauses_hold(&clauses, assignment),
                holds(&expr, assignment),
                "{:?}",
                expr
            );
        }
        for clause in &clauses {
            assert!(clause.literals.windows(2).all(|w| w[0] < w[1]));
        }
    }
}

#[test]
fn conversion_is_idempotent() {
    let mut seed = 7u64;
    for _ in 0..300 {
        let expr = generated(&mut seed, 4);
        let once = expr.to_cnf();
        let twice = as_expression(&once).to_cnf();
        assert_eq!(literals(&twice), literals(&once));
    }
    // an expression in normal form is read off as it stands
    let expr = and(vec![or(vec![var(2), var(1)]), not(3), or(vec![])]);
    assert_eq!(
        literals(&expr.to_cnf()),
        vec![
            vec![Literal::Variable(Variable(1)), Literal::Variable(Variable(2))],
            vec![Literal::Negation(Variable(3))],
            vec![]
        ]
    );
}

#[test]
fn cloning_copies_the_whole_tree() {
    let expr = or(vec![and(vec![var(1), not(2)]), var(3), or(vec![])]);
    let copy = expr.clone();
    assert_eq!(format!("{:?}", copy), format!("{:?}", expr));
}

#[test]
fn literals_from_variables() {
    assert_eq!(!Variable(3), Literal::Negation(Variable(3)));
    assert_eq!(Literal::from(Variable(3)), Literal::Variable(Variable(3)));
    let literal: Literal = Variable(8).into();
    assert_eq!(literal, Literal::Variable(Variable(8)));
}
