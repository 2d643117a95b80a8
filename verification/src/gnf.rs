//! A formula in conjunctive normal form together with a directed graph whose
//! edges are switched by variables and which is required to be acyclic; and
//! the text in which a solver takes it.

use crate::clause::{clause_views, Clause};
use crate::formula::{Literal, Variable};
use crate::text::{decimal, push_decimal};
use vstd::prelude::*;
use vstd::string::StringExecFns;

verus! {

/// A node of the graph, named by its index.
#[derive(Debug, Clone, Copy)]
pub struct Node(pub usize);

/// A directed edge that exists where its variable is true.
#[derive(Debug)]
pub struct Edge {
    pub from: Node,
    pub to: Node,
    pub variable: Variable,
}

/// A group of clauses under one comment.
#[derive(Debug)]
pub struct ClausesWithComment {
    pub comment: String,
    pub clauses: Vec<Clause>,
}

/// What a group of clauses holds.
pub struct GroupModel {
    pub comment: Seq<char>,
    pub clauses: Seq<Seq<Literal>>,
}

/// What an edge and its comment hold.
pub struct EdgeModel {
    pub from: nat,
    pub to: nat,
    pub variable: nat,
    pub comment: Seq<char>,
}

/// What a `Gnf` holds.
pub struct GnfModel {
    /// The highest variable index handed out; variables count from 1.
    pub n_variables: nat,
    /// The groups of clauses, in the order in which they were added.
    pub groups: Seq<GroupModel>,
    /// The number of nodes handed out; nodes count from 0.
    pub n_nodes: nat,
    /// The edges, in the order in which they were added.
    pub edges: Seq<EdgeModel>,
    /// The variable that stands for the graph being acyclic.
    pub acyclic_variable: nat,
}

impl View for ClausesWithComment {
    type V = GroupModel;

    open spec fn view(&self) -> GroupModel {
        GroupModel { comment: self.comment@, clauses: clause_views(self.clauses@) }
    }
}

/// The model of an edge stored with its comment.
pub open spec fn edge_model(e: (Edge, String)) -> EdgeModel {
    EdgeModel {
        from: e.0.from.0 as nat,
        to: e.0.to.0 as nat,
        variable: e.0.variable.0 as nat,
        comment: e.1@,
    }
}

/// The text of a literal within a clause line: the variable's index, with a
/// minus sign before it if negated, and a space.
pub open spec fn literal_text(l: Literal) -> Seq<char> {
    match l {
        Literal::Variable(v) => decimal(v.0 as nat) + " "@,
        Literal::Negation(v) => "-"@ + decimal(v.0 as nat) + " "@,
    }
}

/// The text of the first `n` literals of a clause.
pub open spec fn literals_text(c: Seq<Literal>, n: nat) -> Seq<char>
    decreases n,
{
    if n == 0 || n > c.len() {
        Seq::empty()
    } else {
        literals_text(c, (n - 1) as nat) + literal_text(c[n - 1])
    }
}

/// The line of a clause: its literals and the closing zero.
pub open spec fn clause_line(c: Seq<Literal>) -> Seq<char> {
    literals_text(c, c.len()) + "0\n"@
}

/// The lines of the first `n` clauses of `cs`.
pub open spec fn clause_lines(cs: Seq<Seq<Literal>>, n: nat) -> Seq<char>
    decreases n,
{
    if n == 0 || n > cs.len() {
        Seq::empty()
    } else {
        clause_lines(cs, (n - 1) as nat) + clause_line(cs[n - 1])
    }
}

/// The text of a group: the comment line, then one line for each clause.
pub open spec fn group_text(g: GroupModel) -> Seq<char> {
    "c "@ + g.comment + "\n"@ + clause_lines(g.clauses, g.clauses.len())
}

/// The text of the first `n` groups.
pub open spec fn groups_text(gs: Seq<GroupModel>, n: nat) -> Seq<char>
    decreases n,
{
    if n == 0 || n > gs.len() {
        Seq::empty()
    } else {
        groups_text(gs, (n - 1) as nat) + group_text(gs[n - 1])
    }
}

/// The number of clauses in the first `n` groups.
pub open spec fn clause_count(gs: Seq<GroupModel>, n: nat) -> nat
    decreases n,
{
    if n == 0 || n > gs.len() {
        0
    } else {
        clause_count(gs, (n - 1) as nat) + gs[n - 1].clauses.len()
    }
}

/// The text of an edge: the comment line, then the edge line.
pub open spec fn edge_text(e: EdgeModel) -> Seq<char> {
    "c "@ + e.comment + "\nedge 0 "@ + decimal(e.from) + " "@ + decimal(e.to) + " "@ + decimal(
        e.variable,
    ) + "\n"@
}

/// The text of the first `n` edges.
pub open spec fn edges_text(es: Seq<EdgeModel>, n: nat) -> Seq<char>
    decreases n,
{
    if n == 0 || n > es.len() {
        Seq::empty()
    } else {
        edges_text(es, (n - 1) as nat) + edge_text(es[n - 1])
    }
}

/// The whole document: the header with the numbers of variables and of
/// clauses, the groups of clauses, the graph's header with the numbers of
/// nodes and of edges, the edges, and the line that asks for an acyclic
/// graph.
pub open spec fn dimacs(g: GnfModel) -> Seq<char> {
    "p cnf "@ + decimal(g.n_variables) + " "@ + decimal(clause_count(g.groups, g.groups.len()))
        + "\n"@ + groups_text(g.groups, g.groups.len()) + "digraph "@ + decimal(g.n_nodes) + " "@
        + decimal(g.edges.len()) + " 0\n"@ + edges_text(g.edges, g.edges.len()) + "acyclic 0 "@
        + decimal(g.acyclic_variable) + "\n"@
}

/// The index of the variable of a literal.
pub open spec fn variable_of(l: Literal) -> nat {
    match l {
        Literal::Variable(v) => v.0 as nat,
        Literal::Negation(v) => v.0 as nat,
    }
}

/// The clause asserts variable `v`: it is the positive literal of `v` alone.
pub open spec fn asserts(c: Seq<Literal>, v: nat) -> bool {
    c.len() == 1 && c[0] is Variable && variable_of(c[0]) == v
}

/// Variable `v` occurs in the document: it is the acyclicity variable, or an
/// edge carries it, or a clause holds a literal of it.
pub open spec fn referenced(g: GnfModel, v: nat) -> bool {
    ||| v == g.acyclic_variable
    ||| exists|i: int| 0 <= i < g.edges.len() && (#[trigger] g.edges[i]).variable == v
    ||| exists|i: int, c: int, k: int|
        0 <= i < g.groups.len() && 0 <= c < g.groups[i].clauses.len() && 0 <= k
            < g.groups[i].clauses[c].len() && variable_of(#[trigger] g.groups[i].clauses[c][k])
            == v
}

/// The state of a finished document:
/// the acyclicity variable is variable 1 and is asserted by exactly one
/// clause; every edge carries a variable that was handed out, other than the
/// acyclicity variable, and joins two nodes that were handed out; no two
/// edges carry the same variable; and the clauses hold only variables that
/// were handed out.
pub open spec fn well_formed(g: GnfModel) -> bool {
    &&& g.acyclic_variable == 1
    &&& g.n_variables >= 1
    &&& forall|i: int|
        0 <= i < g.edges.len() ==> {
            &&& 2 <= (#[trigger] g.edges[i]).variable <= g.n_variables
            &&& g.edges[i].from < g.n_nodes
            &&& g.edges[i].to < g.n_nodes
        }
    &&& forall|i: int, j: int|
        0 <= i < j < g.edges.len() ==> (#[trigger] g.edges[i]).variable
            != (#[trigger] g.edges[j]).variable
    &&& forall|i: int, c: int, k: int|
        0 <= i < g.groups.len() && 0 <= c < g.groups[i].clauses.len() && 0 <= k
            < g.groups[i].clauses[c].len() ==> 1 <= variable_of(
            #[trigger] g.groups[i].clauses[c][k],
        ) <= g.n_variables
    &&& exists|i: int, c: int|
        0 <= i < g.groups.len() && 0 <= c < g.groups[i].clauses.len() && asserts(
            #[trigger] g.groups[i].clauses[c],
            g.acyclic_variable,
        ) && forall|i2: int, c2: int|
            0 <= i2 < g.groups.len() && 0 <= c2 < g.groups[i2].clauses.len() && asserts(
                #[trigger] g.groups[i2].clauses[c2],
                g.acyclic_variable,
            ) ==> i2 == i && c2 == c
}

/// In a well-formed document the number of variables that the header
/// declares is at least the index of every variable that occurs; and it is
/// the highest index that occurs where the last variable handed out is in
/// use.
pub proof fn lemma_declared_variables(g: GnfModel)
    requires
        well_formed(g),
    ensures
        forall|v: nat| referenced(g, v) ==> 1 <= v <= g.n_variables,
        referenced(g, g.n_variables) ==> (forall|v: nat| referenced(g, v) ==> v <= g.n_variables),
{
    assert forall|v: nat| referenced(g, v) implies 1 <= v <= g.n_variables by {
        if v == g.acyclic_variable {
        } else if exists|i: int| 0 <= i < g.edges.len() && (#[trigger] g.edges[i]).variable == v {
            let i = choose|i: int| 0 <= i < g.edges.len() && (#[trigger] g.edges[i]).variable == v;
            assert(2 <= g.edges[i].variable <= g.n_variables);
        } else {
            let (i, c, k) = choose|i: int, c: int, k: int|
                0 <= i < g.groups.len() && 0 <= c < g.groups[i].clauses.len() && 0 <= k
                    < g.groups[i].clauses[c].len() && variable_of(
                    #[trigger] g.groups[i].clauses[c][k],
                ) == v;
            assert(1 <= variable_of(g.groups[i].clauses[c][k]) <= g.n_variables);
        }
    }
}

/// In a well-formed document every edge names a variable within the number
/// declared and nodes within the number declared.
pub proof fn lemma_declared_edges(g: GnfModel, i: int)
    requires
        well_formed(g),
        0 <= i < g.edges.len(),
    ensures
        g.edges[i].variable <= g.n_variables,
        g.edges[i].from < g.n_nodes,
        g.edges[i].to < g.n_nodes,
{
}

/// Internal representation of a MonoSAT GNF.
#[derive(Debug)]
pub struct Gnf {
    n_variables: usize,
    meta_clauses: Vec<ClausesWithComment>,
    n_nodes: usize,
    edges: Vec<(Edge, String)>,
    acyclic_variable: Variable,
}

impl View for Gnf {
    type V = GnfModel;

    closed spec fn view(&self) -> GnfModel {
        GnfModel {
            n_variables: self.n_variables as nat,
            groups: Seq::new(self.meta_clauses@.len(), |i: int| self.meta_clauses@[i]@),
            n_nodes: self.n_nodes as nat,
            edges: Seq::new(self.edges@.len(), |i: int| edge_model(self.edges@[i])),
            acyclic_variable: self.acyclic_variable.0 as nat,
        }
    }
}

impl Gnf {
    /// A document with no clause, node or edge. Variable 1 is there from the
    /// start and stands for the graph being acyclic.
    pub fn new() -> (gnf: Gnf)
        ensures
            gnf@ == (GnfModel {
                n_variables: 1,
                groups: Seq::empty(),
                n_nodes: 0,
                edges: Seq::empty(),
                acyclic_variable: 1,
            }),
    {
        let gnf = Gnf {
            n_variables: 1,
            meta_clauses: Vec::new(),
            n_nodes: 0,
            edges: Vec::new(),
            acyclic_variable: Variable(1),
        };
        assert(gnf@.groups =~= Seq::empty());
        assert(gnf@.edges =~= Seq::empty());
        gnf
    }

    /// Hands out the next variable.
    pub fn add_variable(&mut self) -> (variable: Variable)
        requires
            old(self)@.n_variables < usize::MAX,
        ensures
            variable.0 == old(self)@.n_variables + 1,
            final(self)@ == (GnfModel { n_variables: old(self)@.n_variables + 1, ..old(self)@ }),
    {
        let variable_number = self.n_variables + 1;
        self.n_variables = variable_number;
        Variable(variable_number)
    }

    /// Hands out the next node.
    pub fn add_node(&mut self) -> (node: Node)
        requires
            old(self)@.n_nodes < usize::MAX,
        ensures
            node.0 == old(self)@.n_nodes,
            final(self)@ == (GnfModel { n_nodes: old(self)@.n_nodes + 1, ..old(self)@ }),
    {
        let node_number = self.n_nodes;
        self.n_nodes = node_number + 1;
        Node(node_number)
    }

    /// Adds an edge from `from` to `to` that exists where `variable` is true.
    pub fn add_edge(&mut self, from: Node, to: Node, variable: Variable, comment: String)
        ensures
            final(self)@ == (GnfModel {
                edges: old(self)@.edges.push(
                    EdgeModel {
                        from: from.0 as nat,
                        to: to.0 as nat,
                        variable: variable.0 as nat,
                        comment: comment@,
                    },
                ),
                ..old(self)@
            }),
    {
        self.edges.push((Edge { from, to, variable }, comment));
        assert(self@.edges =~= old(self)@.edges.push(
            EdgeModel {
                from: from.0 as nat,
                to: to.0 as nat,
                variable: variable.0 as nat,
                comment: comment@,
            },
        ));
    }

    /// Adds one clause under a comment.
    pub fn add_clause(&mut self, clause: Clause, comment: String)
        ensures
            final(self)@ == (GnfModel {
                groups: old(self)@.groups.push(
                    GroupModel { comment: comment@, clauses: seq![clause@] },
                ),
                ..old(self)@
            }),
    {
        let mut clauses: Vec<Clause> = Vec::new();
        clauses.push(clause);
        assert(clause_views(clauses@) =~= seq![clause@]);
        self.meta_clauses.push(ClausesWithComment { clauses, comment });
        assert(self@.groups =~= old(self)@.groups.push(
            GroupModel { comment: comment@, clauses: seq![clause@] },
        ));
    }

    /// Adds a group of clauses under a comment.
    pub fn add_clauses(&mut self, clauses: Vec<Clause>, comment: String)
        ensures
            final(self)@ == (GnfModel {
                groups: old(self)@.groups.push(
                    GroupModel { comment: comment@, clauses: clause_views(clauses@) },
                ),
                ..old(self)@
            }),
    {
        self.meta_clauses.push(ClausesWithComment { clauses, comment });
        assert(self@.groups =~= old(self)@.groups.push(
            GroupModel { comment: comment@, clauses: clause_views(clauses@) },
        ));
    }

    /// The highest variable index handed out so far.
    pub fn variables(&self) -> (n: usize)
        ensures
            n == self@.n_variables,
    {
        self.n_variables
    }

    /// The number of nodes handed out so far.
    pub fn nodes(&self) -> (n: usize)
        ensures
            n == self@.n_nodes,
    {
        self.n_nodes
    }

    /// The variable that stands for the graph being acyclic.
    pub fn acyclic_variable(&self) -> (variable: Variable)
        ensures
            variable.0 == self@.acyclic_variable,
    {
        self.acyclic_variable
    }

    /// The number of clauses in all groups together, if it fits the machine's
    /// integers.
    pub fn total_clauses(&self) -> (count: Option<usize>)
        ensures
            match count {
                Some(n) => n == clause_count(self@.groups, self@.groups.len()),
                None => clause_count(self@.groups, self@.groups.len()) > usize::MAX,
            },
    {
        let mut count: usize = 0;
        let mut i: usize = 0;
        while i < self.meta_clauses.len()
            invariant
                i <= self.meta_clauses.len(),
                count == clause_count(self@.groups, i as nat),
            decreases self.meta_clauses.len() - i,
        {
            let n = self.meta_clauses[i].clauses.len();
            assert(self@.groups[i as int].clauses.len() == n);
            if n > usize::MAX - count {
                proof {
                    lemma_clause_count_grows(
                        self@.groups,
                        (i + 1) as nat,
                        self@.groups.len(),
                    );
                }
                return None;
            }
            count += n;
            i += 1;
        }
        Some(count)
    }

    /// The document as text, in the form that the solver reads.
    pub fn to_dimacs(&self) -> (text: String)
        requires
            clause_count(self@.groups, self@.groups.len()) <= usize::MAX,
        ensures
            text@ == dimacs(self@),
    {
        let clause_count = self.total_clauses().unwrap();
        let mut dimacs = String::from_str("p cnf ");
        push_decimal(&mut dimacs, self.n_variables);
        dimacs.append(" ");
        push_decimal(&mut dimacs, clause_count);
        dimacs.append("\n");
        let ghost head = dimacs@;
        let mut i: usize = 0;
        while i < self.meta_clauses.len()
            invariant
                i <= self.meta_clauses.len(),
                dimacs@ == head + groups_text(self@.groups, i as nat),
            decreases self.meta_clauses.len() - i,
        {
            let ghost before = dimacs@;
            push_group(&mut dimacs, &self.meta_clauses[i]);
            assert(self@.groups[i as int] == self.meta_clauses[i as int]@);
            assert(dimacs@ =~= head + groups_text(self@.groups, (i + 1) as nat));
            i += 1;
        }
        dimacs.append("digraph ");
        push_decimal(&mut dimacs, self.n_nodes);
        dimacs.append(" ");
        push_decimal(&mut dimacs, self.edges.len());
        dimacs.append(" 0\n");
        let ghost middle = dimacs@;
        let mut j: usize = 0;
        while j < self.edges.len()
            invariant
                j <= self.edges.len(),
                dimacs@ == middle + edges_text(self@.edges, j as nat),
            decreases self.edges.len() - j,
        {
            push_edge(&mut dimacs, &self.edges[j].0, &self.edges[j].1);
            assert(self@.edges[j as int] == edge_model(self.edges[j as int]));
            assert(dimacs@ =~= middle + edges_text(self@.edges, (j + 1) as nat));
            j += 1;
        }
        dimacs.append("acyclic 0 ");
        push_decimal(&mut dimacs, self.acyclic_variable.0);
        dimacs.append("\n");
        assert(dimacs@ =~= self::dimacs(self@));
        dimacs
    }
}

/// The number of clauses in the first groups grows with their number.
pub proof fn lemma_clause_count_grows(gs: Seq<GroupModel>, m: nat, n: nat)
    requires
        m <= n <= gs.len(),
    ensures
        clause_count(gs, m) <= clause_count(gs, n),
    decreases n,
{
    if m < n {
        lemma_clause_count_grows(gs, m, (n - 1) as nat);
    }
}

/// Appends the line of a clause.
fn push_clause(out: &mut String, clause: &Clause)
    ensures
        final(out)@ == old(out)@ + clause_line(clause@),
{
    let mut i: usize = 0;
    while i < clause.literals.len()
        invariant
            i <= clause.literals.len(),
            out@ == old(out)@ + literals_text(clause@, i as nat),
        decreases clause.literals.len() - i,
    {
        let ghost before = out@;
        match clause.literals[i] {
            Literal::Variable(Variable(variable)) => {
                push_decimal(out, variable);
                out.append(" ");
            },
            Literal::Negation(Variable(variable)) => {
                out.append("-");
                push_decimal(out, variable);
                out.append(" ");
            },
        }
        assert(out@ =~= before + literal_text(clause@[i as int]));
        assert(out@ =~= old(out)@ + literals_text(clause@, (i + 1) as nat));
        i += 1;
    }
    out.append("0\n");
    assert(out@ =~= old(out)@ + clause_line(clause@));
}

/// Appends a group of clauses: the comment line, then the clause lines.
fn push_group(out: &mut String, group: &ClausesWithComment)
    ensures
        final(out)@ == old(out)@ + group_text(group@),
{
    out.append("c ");
    out.append(group.comment.as_str());
    out.append("\n");
    let ghost head = out@;
    let mut i: usize = 0;
    while i < group.clauses.len()
        invariant
            i <= group.clauses.len(),
            out@ == head + clause_lines(group@.clauses, i as nat),
        decreases group.clauses.len() - i,
    {
        push_clause(out, &group.clauses[i]);
        assert(group@.clauses[i as int] == group.clauses[i as int]@);
        assert(out@ =~= head + clause_lines(group@.clauses, (i + 1) as nat));
        i += 1;
    }
    assert(out@ =~= old(out)@ + group_text(group@));
}

/// Appends an edge: the comment line, then the edge line.
fn push_edge(out: &mut String, edge: &Edge, comment: &String)
    ensures
        final(out)@ == old(out)@ + edge_text(
            EdgeModel {
                from: edge.from.0 as nat,
                to: edge.to.0 as nat,
                variable: edge.variable.0 as nat,
                comment: comment@,
            },
        ),
{
    out.append("c ");
    out.append(comment.as_str());
    out.append("\nedge 0 ");
    push_decimal(out, edge.from.0);
    out.append(" ");
    push_decimal(out, edge.to.0);
    out.append(" ");
    push_decimal(out, edge.variable.0);
    out.append("\n");
    assert(out@ =~= old(out)@ + edge_text(
        EdgeModel {
            from: edge.from.0 as nat,
            to: edge.to.0 as nat,
            variable: edge.variable.0 as nat,
            comment: comment@,
        },
    ));
}

} // verus!
