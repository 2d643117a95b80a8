use history_checker::clause::Clause;
use history_checker::formula::{Literal, Variable};
use history_checker::gnf::{Gnf, Node};
use history_checker::solver::{is_serializable, parse_monosat_output, MonosatError, Satisfiability};

/// Whether the clauses of a document can be met with the switched edges
/// forming no cycle: every assignment is tried.
fn solve(dimacs: &str) -> Satisfiability {
    let mut n_variables = 0usize;
    let mut n_nodes = 0usize;
    let mut clauses: Vec<Vec<i64>> = Vec::new();
    let mut edges: Vec<(usize, usize, usize)> = Vec::new();
    let mut acyclic: Vec<usize> = Vec::new();
    for line in dimacs.lines() {
        let words: Vec<&str> = line.split_whitespace().collect();
        match words.first() {
            None => {}
            Some(&"c") => {}
            Some(&"p") => n_variables = words[2].parse().unwrap(),
            Some(&"digraph") => n_nodes = words[1].parse().unwrap(),
            Some(&"edge") => edges.push((
                words[2].parse().unwrap(),
                words[3].parse().unwrap(),
                words[4].parse().unwrap(),
            )),
            Some(&"acyclic") => acyclic.push(words[2].parse().unwrap()),
            Some(_) => {
                let mut clause: Vec<i64> = words.iter().map(|w| w.parse().unwrap()).collect();
                assert_eq!(clause.pop(), Some(0));
                clauses.push(clause);
            }
        }
    }
    assert!(n_variables < 24);
    for assignment in 0u32..(1u32 << n_variables) {
        let value = |v: usize| assignment & (1 << (v - 1)) != 0;
        let met = clauses.iter().all(|clause| {
            clause
                .iter()
                .any(|l| if *l > 0 { value(*l as usize) } else { !value((-*l) as usize) })
        });
        if !met {
            continue;
        }
        // the graph of the edges that are switched on has no cycle if its
        // nodes can be taken away one by one, each without an edge into it
        let live: Vec<(usize, usize)> = edges
            .iter()
            .filter(|(_, _, v)| value(*v))
            .map(|(from, to, _)| (*from, *to))
            .collect();
        let mut gone = vec![false; n_nodes + 1];
        let mut progress = true;
        while progress {
            progress = false;
            for node in 0..=n_nodes {
                if !gone[node]
                    && !live
                        .iter()
                        .any(|(from, to)| *to == node && !gone[*from])
                {
                    gone[node] = true;
                    progress = true;
                }
            }
        }
        let no_cycle = gone.iter().all(|g| *g);
        if acyclic.iter().all(|v| value(*v) == no_cycle) {
            return Satisfiability::Satisfiable;
        }
    }
    Satisfiability::Unsatisfiable
}

fn unit(variable: Variable) -> Clause {
    Clause {
        literals: vec![variable.into()],
    }
}

#[test]
fn the_solver_of_these_tests_knows_a_cycle() {
    let res = solve(
        "p cnf 4 4\n\
        1 0\n\
        2 0\n\
        3 0\n\
        4 0\n\
        digraph 3 3 0\n\
        edge 0 1 2 1\n\
        edge 0 2 3 2\n\
        edge 0 3 1 3\n\
        acyclic 0 4\n\
        ",
    );
    assert_eq!(res, Satisfiability::Unsatisfiable);

    let res = solve(
        "p cnf 4 2\n\
        -1 -2 -3 0\n\
        4 0\n\
        digraph 3 3 0\n\
        edge 0 1 2 1\n\
        edge 0 2 3 2\n\
        edge 0 3 1 3\n\
        acyclic 0 4\n\
        ",
    );
    assert_eq!(res, Satisfiability::Satisfiable);
}

#[test]
fn test_graph_cycle_structs() {
    {
        let mut gnf = Gnf::new();
        let n1 = gnf.add_node();
        let n2 = gnf.add_node();
        let n3 = gnf.add_node();
        let e1_var = gnf.add_variable();
        let e2_var = gnf.add_variable();
        let e3_var = gnf.add_variable();
        gnf.add_edge(n1, n2, e1_var, "".to_string());
        gnf.add_edge(n2, n3, e2_var, "".to_string());
        gnf.add_edge(n3, n1, e3_var, "".to_string());
        gnf.add_clause(unit(e1_var), "".to_string());
        gnf.add_clause(unit(e2_var), "".to_string());
        gnf.add_clause(unit(e3_var), "".to_string());
        gnf.add_clause(unit(gnf.acyclic_variable()), "".to_string());
        let dimacs = gnf.to_dimacs();
        let res = solve(&dimacs);
        assert_eq!(res, Satisfiability::Unsatisfiable);
    }
    {
        let mut gnf = Gnf::new();
        let n1 = gnf.add_node();
        let n2 = gnf.add_node();
        let n3 = gnf.add_node();
        let e1_var = gnf.add_variable();
        let e2_var = gnf.add_variable();
        let e3_var = gnf.add_variable();
        gnf.add_edge(n1, n2, e1_var, "".to_string());
        gnf.add_edge(n2, n3, e2_var, "".to_string());
        gnf.add_edge(n3, n1, e3_var, "".to_string());
        gnf.add_clause(
            Clause {
                literals: vec![!e1_var, !e2_var, !e3_var],
            },
            "".to_string(),
        );
        gnf.add_clause(
            Clause {
                literals: vec![
                    Literal::Negation(e1_var),
                    Literal::Negation(e2_var),
                    Literal::Negation(e3_var),
                ],
            },
            "".to_string(),
        );
        gnf.add_clause(
            Clause {
                literals: vec![Literal::Variable(gnf.acyclic_variable())],
            },
            "".to_string(),
        );
        let dimacs = gnf.to_dimacs();
        let res = solve(&dimacs);
        assert_eq!(res, Satisfiability::Satisfiable);
    }
}

#[test]
fn new_document_is_empty() {
    let gnf = Gnf::new();
    assert_eq!(gnf.variables(), 1);
    assert_eq!(gnf.nodes(), 0);
    assert_eq!(gnf.acyclic_variable(), Variable(1));
    assert_eq!(gnf.total_clauses(), Some(0));
    assert_eq!(gnf.to_dimacs(), "p cnf 1 0\ndigraph 0 0 0\nacyclic 0 1\n");
}

#[test]
fn variables_count_from_two_and_nodes_from_zero() {
    let mut gnf = Gnf::new();
    assert_eq!(gnf.add_variable(), Variable(2));
    assert_eq!(gnf.add_variable(), Variable(3));
    assert_eq!(gnf.variables(), 3);
    let Node(first) = gnf.add_node();
    let Node(second) = gnf.add_node();
    assert_eq!((first, second), (0, 1));
    assert_eq!(gnf.nodes(), 2);
}

#[test]
fn document_text_is_exact() {
    let mut gnf = Gnf::new();
    gnf.add_clause(unit(gnf.acyclic_variable()), "Acyclic property".to_string());
    let a = gnf.add_node();
    let b = gnf.add_node();
    let v = gnf.add_variable();
    let w = gnf.add_variable();
    gnf.add_edge(a, b, v, "first edge".to_string());
    gnf.add_edge(b, a, w, "second edge".to_string());
    gnf.add_clauses(
        vec![
            Clause {
                literals: vec![Literal::Variable(v), Literal::Negation(w)],
            },
            Clause { literals: vec![] },
            Clause {
                literals: vec![Literal::Negation(Variable(12))],
            },
        ],
        "three clauses".to_string(),
    );
    assert_eq!(gnf.total_clauses(), Some(4));
    assert_eq!(
        gnf.to_dimacs(),
        "p cnf 3 4\n\
         c Acyclic property\n\
         1 0\n\
         c three clauses\n\
         2 -3 0\n\
         0\n\
         -12 0\n\
         digraph 2 2 0\n\
         c first edge\n\
         edge 0 0 1 2\n\
         c second edge\n\
         edge 0 1 0 3\n\
         acyclic 0 1\n"
    );
}

#[test]
fn header_counts_match_the_body() {
    let mut gnf = Gnf::new();
    gnf.add_clause(unit(gnf.acyclic_variable()), "a".to_string());
    for _ in 0..3 {
        gnf.add_node();
    }
    for i in 0..11usize {
        let v = gnf.add_variable();
        gnf.add_clause(unit(v), "u".to_string());
        gnf.add_edge(Node(i % 3), Node((i + 1) % 3), v, "e".to_string());
    }
    let text = gnf.to_dimacs();
    let mut lines = text.lines();
    let header: Vec<&str> = lines.next().unwrap().split(' ').collect();
    assert_eq!(header, vec!["p", "cnf", "12", "12"]);
    let declared_variables: usize = header[2].parse().unwrap();
    let declared_clauses: usize = header[3].parse().unwrap();
    let mut clause_lines = 0;
    let mut highest = 0usize;
    let mut declared_nodes = 0usize;
    for line in text.lines().skip(1) {
        let words: Vec<&str> = line.split(' ').collect();
        if words[0] == "c" {
            continue;
        } else if words[0] == "digraph" {
            declared_nodes = words[1].parse().unwrap();
            assert_eq!(words[2], "11");
        } else if words[0] == "edge" {
            let from: usize = words[2].parse().unwrap();
            let to: usize = words[3].parse().unwrap();
            let variable: usize = words[4].parse().unwrap();
            assert!(from < declared_nodes && to < declared_nodes);
            assert!(variable <= declared_variables);
            highest = highest.max(variable);
        } else if words[0] == "acyclic" {
            let variable: usize = words[2].parse().unwrap();
            highest = highest.max(variable);
        } else {
            clause_lines += 1;
            for word in &words[..words.len() - 1] {
                let literal: i64 = word.parse().unwrap();
                highest = highest.max(literal.unsigned_abs() as usize);
            }
        }
    }
    assert_eq!(declared_nodes, 3);
    assert_eq!(clause_lines, declared_clauses);
    assert_eq!(highest, declared_variables);
}

#[test]
fn solver_answers_are_read_byte_for_byte() {
    assert_eq!(
        parse_monosat_output(b"s SATISFIABLE\n").unwrap(),
        Satisfiability::Satisfiable
    );
    assert_eq!(
        parse_monosat_output(b"s UNSATISFIABLE\n").unwrap(),
        Satisfiability::Unsatisfiable
    );
    for other in [
        &b""[..],
        b"s SATISFIABLE",
        b"s SATISFIABLE\n\n",
        b"S SATISFIABLE\n",
        b"s UNSATISFIABLE",
        b"garbage",
    ] {
        let error = parse_monosat_output(other).unwrap_err();
        assert!(matches!(error, MonosatError::OutputParseError));
        assert_eq!(error.message(), "Error parsing MonoSAT output");
    }
    assert!(is_serializable(Satisfiability::Satisfiable));
    assert!(!is_serializable(Satisfiability::Unsatisfiable));
}

#[test]
fn the_solver_of_these_tests_knows_trivial_instances() {
    assert_eq!(solve("p cnf 1 1\n1 0\n"), Satisfiability::Satisfiable);
    assert_eq!(solve("p cnf 1 2\n1 0\n-1 0\n"), Satisfiability::Unsatisfiable);
}

#[test]
fn io_errors_are_kept() {
    let error = MonosatError::from(std::io::Error::new(
        std::io::ErrorKind::NotFound,
        "no solver here",
    ));
    assert!(matches!(error, MonosatError::Io(_)));
    assert!(error.message().contains("no solver here"));
}
