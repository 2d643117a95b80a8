//! How a document grows while a history is encoded: nothing that is there
//! changes, and each new variable comes with one new edge that carries it.

use crate::clause::clauses_hold;
use crate::encoding::{
    before_all, before_in_time, candidate, choice, encode_choice, encode_choices, encode_key,
    encode_keys, encode_single, encode_single_reads, encoding, explanation, explanations,
    initial, key_is_impossible, label_on, matching, other_writes, positive, read_before_writes,
    reads_of, realtime, realtime_row, spared, specs_of, timed, tx_reads, tx_writes, unexplained,
    unit, value_from_nowhere, variable_at, with_asserted_edge, with_edge, with_nodes, writes_of,
    Access,
};
use crate::formula::{children, holds, lemma_mentions, mentions, Assignment, Formula, Literal};
use crate::gnf::{asserts, referenced, variable_of, well_formed, GnfModel};
use crate::history::TransactionModel;
use crate::keys::all_keys;
use crate::normal::{cnf, lemma_cnf_equivalent, lemma_cnf_mentions};
use vstd::prelude::*;

verus! {

/// The document's variables can be counted in the machine's integers.
pub open spec fn fits(g: GnfModel) -> bool {
    g.n_variables <= usize::MAX
}

/// `l` is the positive literal of a variable handed out after `low` and up
/// to `high`.
pub open spec fn issued_literal(l: Literal, low: nat, high: nat) -> bool {
    exists|v: nat| low < v <= high && l == #[trigger] positive(v)
}

/// Every literal of `f` is the positive literal of a variable handed out
/// after `low` and up to `high`.
pub open spec fn formula_within(f: Formula, low: nat, high: nat) -> bool {
    forall|l: Literal| #[trigger] mentions(f, l) ==> issued_literal(l, low, high)
}

/// `g2` continues `g` over a graph of `nodes` nodes: the nodes and the
/// acyclicity variable are the same, the groups and edges of `g` are the
/// first of `g2`, each further edge of `g2` joins two of the nodes and
/// carries the next new variable, and the further clauses of `g2` are made
/// of the new variables.
pub open spec fn continues(g: GnfModel, g2: GnfModel, nodes: nat) -> bool {
    &&& g2.n_nodes == g.n_nodes
    &&& g2.acyclic_variable == g.acyclic_variable
    &&& g.n_variables <= g2.n_variables
    &&& g2.edges.len() - g.edges.len() == g2.n_variables - g.n_variables
    &&& g.groups.len() <= g2.groups.len()
    &&& forall|i: int| 0 <= i < g.edges.len() ==> #[trigger] g2.edges[i] == g.edges[i]
    &&& forall|i: int| 0 <= i < g.groups.len() ==> #[trigger] g2.groups[i] == g.groups[i]
    &&& forall|i: int|
        g.edges.len() <= i < g2.edges.len() ==> {
            &&& (#[trigger] g2.edges[i]).variable == g.n_variables + 1 + i - g.edges.len()
            &&& g2.edges[i].from < nodes
            &&& g2.edges[i].to < nodes
        }
    &&& forall|i: int, c: int, k: int|
        g.groups.len() <= i < g2.groups.len() && 0 <= c < g2.groups[i].clauses.len() && 0 <= k
            < g2.groups[i].clauses[c].len() ==> issued_literal(
            #[trigger] g2.groups[i].clauses[c][k],
            g.n_variables,
            g2.n_variables,
        )
}

/// A literal issued within bounds is issued within wider bounds.
pub proof fn lemma_issued_wider(l: Literal, low: nat, high: nat, lower: nat, higher: nat)
    requires
        issued_literal(l, low, high),
        lower <= low,
        high <= higher,
    ensures
        issued_literal(l, lower, higher),
{
    let v = choose|v: nat| low < v <= high && l == #[trigger] positive(v);
    assert(lower < v <= higher && l == positive(v));
}

/// Each of the accesses belongs to one of the first `nodes` transactions.
pub open spec fn within(accesses: Seq<Access>, nodes: nat) -> bool {
    forall|i: int| 0 <= i < accesses.len() ==> (#[trigger] accesses[i]).tx < nodes
}

/// A continuation of a continuation is a continuation.
pub proof fn lemma_continues_chain(a: GnfModel, b: GnfModel, c: GnfModel, nodes: nat)
    requires
        continues(a, b, nodes),
        continues(b, c, nodes),
    ensures
        continues(a, c, nodes),
{
    assert forall|i: int| 0 <= i < a.edges.len() implies #[trigger] c.edges[i] == a.edges[i] by {
        assert(b.edges[i] == a.edges[i]);
    }
    assert forall|i: int| 0 <= i < a.groups.len() implies #[trigger] c.groups[i]
        == a.groups[i] by {
        assert(b.groups[i] == a.groups[i]);
    }
    assert forall|i: int| a.edges.len() <= i < c.edges.len() implies {
        &&& (#[trigger] c.edges[i]).variable == a.n_variables + 1 + i - a.edges.len()
        &&& c.edges[i].from < nodes
        &&& c.edges[i].to < nodes
    } by {
        if i < b.edges.len() {
            assert(c.edges[i] == b.edges[i]);
        }
    }
    assert forall|i: int, j: int, k: int|
        a.groups.len() <= i < c.groups.len() && 0 <= j < c.groups[i].clauses.len() && 0 <= k
            < c.groups[i].clauses[j].len() implies issued_literal(
        #[trigger] c.groups[i].clauses[j][k],
        a.n_variables,
        c.n_variables,
    ) by {
        let l = c.groups[i].clauses[j][k];
        if i < b.groups.len() {
            assert(c.groups[i] == b.groups[i]);
            assert(issued_literal(b.groups[i].clauses[j][k], a.n_variables, b.n_variables));
            lemma_issued_wider(l, a.n_variables, b.n_variables, a.n_variables, c.n_variables);
        } else {
            lemma_issued_wider(l, b.n_variables, c.n_variables, a.n_variables, c.n_variables);
        }
    }
}

/// A document with an asserted edge between two of the nodes continues the
/// document.
pub proof fn lemma_with_asserted_edge(
    g: GnfModel,
    from: nat,
    to: nat,
    clause_comment: Seq<char>,
    edge_comment: Seq<char>,
    nodes: nat,
)
    requires
        from < nodes,
        to < nodes,
    ensures
        continues(g, with_asserted_edge(g, from, to, clause_comment, edge_comment), nodes),
{
    let g2 = with_asserted_edge(g, from, to, clause_comment, edge_comment);
    assert forall|i: int, c: int, k: int|
        g.groups.len() <= i < g2.groups.len() && 0 <= c < g2.groups[i].clauses.len() && 0 <= k
            < g2.groups[i].clauses[c].len() implies issued_literal(
        #[trigger] g2.groups[i].clauses[c][k],
        g.n_variables,
        g2.n_variables,
    ) by {
        assert(g2.groups[i].clauses[c][k] == positive(g.n_variables + 1));
    }
}

/// The edges in real time from one transaction continue the document, the
/// more the further.
pub proof fn lemma_realtime_row(h: Seq<TransactionModel>, g: GnfModel, i: int, m: nat, n: nat)
    requires
        0 <= i < h.len(),
        m <= n <= h.len(),
    ensures
        continues(realtime_row(h, g, i, m), realtime_row(h, g, i, n), h.len()),
    decreases n,
{
    if m < n {
        lemma_realtime_row(h, g, i, m, (n - 1) as nat);
        lemma_continues_chain(
            realtime_row(h, g, i, m),
            realtime_row(h, g, i, (n - 1) as nat),
            realtime_row(h, g, i, n),
            h.len(),
        );
    }
}

/// The edges in real time continue the document, the more the further.
pub proof fn lemma_realtime(h: Seq<TransactionModel>, g: GnfModel, m: nat, n: nat)
    requires
        m <= n <= h.len(),
    ensures
        continues(realtime(h, g, m), realtime(h, g, n), h.len()),
    decreases n,
{
    if m < n {
        lemma_realtime(h, g, m, (n - 1) as nat);
        let prev = realtime(h, g, (n - 1) as nat);
        lemma_realtime_row(h, prev, n - 1, 0, h.len());
        lemma_continues_chain(realtime(h, g, m), prev, realtime(h, g, n), h.len());
    }
}

/// What one read says beside a single write continues the document.
pub proof fn lemma_encode_single(
    g: GnfModel,
    write: Access,
    read: Access,
    key: Seq<u8>,
    nodes: nat,
)
    requires
        write.tx < nodes,
        read.tx < nodes,
    ensures
        continues(g, encode_single(g, write, read, key), nodes),
{
    let g2 = encode_single(g, write, read, key);
    if g2 != g {
        match (write.value, read.value) {
            (Some(_), None) => {
                lemma_with_asserted_edge(
                    g,
                    read.tx,
                    write.tx,
                    label_on(
                        "R-W anti-dependency edge from T"@,
                        read.tx,
                        " to T"@,
                        write.tx,
                        key,
                    ),
                    label_on(
                        "R-W anti-dependeny from T"@,
                        read.tx,
                        " to T"@,
                        write.tx,
                        key,
                    ),
                    nodes,
                );
            },
            _ => {
                lemma_with_asserted_edge(
                    g,
                    write.tx,
                    read.tx,
                    label_on(
                        "W-R dependency edge from T"@,
                        write.tx,
                        " to T"@,
                        read.tx,
                        key,
                    ),
                    label_on(
                        "W-R dependency from T"@,
                        write.tx,
                        " to T"@,
                        read.tx,
                        key,
                    ),
                    nodes,
                );
            },
        }
    }
}

/// What the reads say beside a single write continues the document, the more
/// the further.
pub proof fn lemma_encode_single_reads(
    g: GnfModel,
    write: Access,
    reads: Seq<Access>,
    key: Seq<u8>,
    m: nat,
    n: nat,
    nodes: nat,
)
    requires
        m <= n <= reads.len(),
        write.tx < nodes,
        within(reads, nodes),
    ensures
        continues(
            encode_single_reads(g, write, reads, key, m),
            encode_single_reads(g, write, reads, key, n),
            nodes,
        ),
    decreases n,
{
    if m < n {
        lemma_encode_single_reads(g, write, reads, key, m, (n - 1) as nat, nodes);
        let prev = encode_single_reads(g, write, reads, key, (n - 1) as nat);
        lemma_encode_single(prev, write, reads[n - 1], key, nodes);
        lemma_continues_chain(
            encode_single_reads(g, write, reads, key, m),
            prev,
            encode_single_reads(g, write, reads, key, n),
            nodes,
        );
    }
}

/// The variables in the list are among those handed out after `low` and up
/// to `high`.
pub open spec fn issued(vars: Seq<Option<nat>>, low: nat, high: nat) -> bool {
    forall|j: int|
        0 <= j < vars.len() ==> match #[trigger] vars[j] {
            Some(v) => low < v <= high,
            None => true,
        }
}

/// The edges from a read to the writes continue the document, the more the
/// further; their variables are new, and the places without a variable are
/// those of the spared writes.
pub proof fn lemma_read_before_writes(
    g: GnfModel,
    writes: Seq<Access>,
    read: Access,
    key: Seq<u8>,
    m: nat,
    n: nat,
    nodes: nat,
)
    requires
        m <= n <= writes.len(),
        read.tx < nodes,
        within(writes, nodes),
    ensures
        continues(
            read_before_writes(g, writes, read, key, m).0,
            read_before_writes(g, writes, read, key, n).0,
            nodes,
        ),
        read_before_writes(g, writes, read, key, n).1.len() == n,
        issued(
            read_before_writes(g, writes, read, key, n).1,
            g.n_variables,
            read_before_writes(g, writes, read, key, n).0.n_variables,
        ),
        m == 0 ==> read_before_writes(g, writes, read, key, m).0 == g,
        forall|j: int|
            0 <= j < n ==> ((#[trigger] read_before_writes(g, writes, read, key, n).1[j]) is None
                <==> spared(writes, read, j)),
    decreases n,
{
    if n > 0 {
        let prev = read_before_writes(g, writes, read, key, (n - 1) as nat);
        let now = read_before_writes(g, writes, read, key, n);
        if m < n {
            lemma_read_before_writes(g, writes, read, key, m, (n - 1) as nat, nodes);
        } else {
            lemma_read_before_writes(g, writes, read, key, 0, (n - 1) as nat, nodes);
        }
        lemma_read_before_writes(g, writes, read, key, 0, (n - 1) as nat, nodes);
        assert(continues(prev.0, now.0, nodes));
        if m < n {
            lemma_continues_chain(
                read_before_writes(g, writes, read, key, m).0,
                prev.0,
                now.0,
                nodes,
            );
        }
        assert forall|j: int| 0 <= j < now.1.len() implies match #[trigger] now.1[j] {
            Some(v) => g.n_variables < v <= now.0.n_variables,
            None => true,
        } by {
            if j < n - 1 {
                assert(now.1[j] == prev.1[j]);
            }
        }
        assert forall|j: int| 0 <= j < n implies ((#[trigger] now.1[j]) is None <==> spared(
            writes,
            read,
            j,
        )) by {
            if j < n - 1 {
                assert(now.1[j] == prev.1[j]);
            }
        }
    }
}

/// The edges from the other writes to the chosen one continue the document,
/// the more the further.
pub proof fn lemma_other_writes(
    g: GnfModel,
    writes: Seq<Access>,
    before: Seq<Option<nat>>,
    chosen: nat,
    key: Seq<u8>,
    m: nat,
    n: nat,
    nodes: nat,
)
    requires
        m <= n <= writes.len(),
        chosen < nodes,
        within(writes, nodes),
    ensures
        continues(
            other_writes(g, writes, before, chosen, key, m).0,
            other_writes(g, writes, before, chosen, key, n).0,
            nodes,
        ),
        m == 0 ==> other_writes(g, writes, before, chosen, key, m).0 == g,
    decreases n,
{
    if m < n {
        lemma_other_writes(g, writes, before, chosen, key, m, (n - 1) as nat, nodes);
        let prev = other_writes(g, writes, before, chosen, key, (n - 1) as nat);
        let now = other_writes(g, writes, before, chosen, key, n);
        assert(continues(prev.0, now.0, nodes));
        lemma_continues_chain(
            other_writes(g, writes, before, chosen, key, m).0,
            prev.0,
            now.0,
            nodes,
        );
    }
}

/// The edges of an explanation continue the document.
pub proof fn lemma_explanation(
    g: GnfModel,
    writes: Seq<Access>,
    before: Seq<Option<nat>>,
    read: Access,
    chosen: nat,
    key: Seq<u8>,
    nodes: nat,
)
    requires
        chosen < nodes,
        read.tx < nodes,
        within(writes, nodes),
    ensures
        continues(g, explanation(g, writes, before, read, chosen, key).0, nodes),
{
    let first = with_edge(
        g,
        chosen,
        read.tx,
        candidate(writes, read) + label_on(
            "W-R dependency from T"@,
            chosen,
            " to T"@,
            read.tx,
            key,
        ),
    );
    lemma_other_writes(first, writes, before, chosen, key, 0, writes.len(), nodes);
    lemma_continues_chain(
        g,
        first,
        explanation(g, writes, before, read, chosen, key).0,
        nodes,
    );
}

/// The transactions of the matching writes are among the nodes.
pub proof fn lemma_matching_within(writes: Seq<Access>, value: Option<Seq<u8>>, n: nat, nodes: nat)
    requires
        n <= writes.len(),
        within(writes, nodes),
    ensures
        forall|p: int|
            0 <= p < matching(writes, value, n).len() ==> #[trigger] matching(writes, value, n)[p]
                < nodes,
    decreases n,
{
    if n > 0 {
        lemma_matching_within(writes, value, (n - 1) as nat, nodes);
        let prev = matching(writes, value, (n - 1) as nat);
        let now = matching(writes, value, n);
        assert forall|p: int| 0 <= p < now.len() implies #[trigger] now[p] < nodes by {
            if p < prev.len() {
                assert(now[p] == prev[p]);
            } else {
                assert(now[p] == writes[n - 1].tx);
            }
        }
    }
}

/// The edges of the explanations continue the document, the more the
/// further.
pub proof fn lemma_explanations(
    g: GnfModel,
    writes: Seq<Access>,
    before: Seq<Option<nat>>,
    read: Access,
    key: Seq<u8>,
    m: nat,
    n: nat,
    nodes: nat,
)
    requires
        m <= n <= matching(writes, read.value, writes.len()).len(),
        read.tx < nodes,
        within(writes, nodes),
    ensures
        continues(
            explanations(g, writes, before, read, key, m).0,
            explanations(g, writes, before, read, key, n).0,
            nodes,
        ),
        m == 0 ==> explanations(g, writes, before, read, key, m).0 == g,
    decreases n,
{
    if m < n {
        let ms = matching(writes, read.value, writes.len());
        lemma_matching_within(writes, read.value, writes.len(), nodes);
        lemma_explanations(g, writes, before, read, key, m, (n - 1) as nat, nodes);
        let prev = explanations(g, writes, before, read, key, (n - 1) as nat);
        lemma_explanation(prev.0, writes, before, read, ms[n - 1], key, nodes);
        lemma_continues_chain(
            explanations(g, writes, before, read, key, m).0,
            prev.0,
            explanations(g, writes, before, read, key, n).0,
            nodes,
        );
    }
}

/// A formula of variables within bounds is one within wider bounds.
pub proof fn lemma_formula_wider(f: Formula, low: nat, high: nat, higher: nat)
    requires
        formula_within(f, low, high),
        high <= higher,
    ensures
        formula_within(f, low, higher),
{
    assert forall|l: Literal| #[trigger] mentions(f, l) implies issued_literal(l, low, higher) by {
        lemma_issued_wider(l, low, high, low, higher);
    }
}

/// The conditions on the other writes are made of variables of the read.
pub proof fn lemma_other_writes_formulas(
    g: GnfModel,
    writes: Seq<Access>,
    before: Seq<Option<nat>>,
    chosen: nat,
    key: Seq<u8>,
    n: nat,
    low: nat,
    nodes: nat,
)
    requires
        n <= writes.len(),
        before.len() == writes.len(),
        low <= g.n_variables,
        issued(before, low, g.n_variables),
        forall|j: int| 0 <= j < writes.len() && writes[j].tx != chosen ==> before[j] is Some,
        chosen < nodes,
        within(writes, nodes),
    ensures
        forall|p: int|
            0 <= p < other_writes(g, writes, before, chosen, key, n).1.len() ==> formula_within(
                #[trigger] other_writes(g, writes, before, chosen, key, n).1[p],
                low,
                other_writes(g, writes, before, chosen, key, n).0.n_variables,
            ),
    decreases n,
{
    if n > 0 {
        let prev = other_writes(g, writes, before, chosen, key, (n - 1) as nat);
        let now = other_writes(g, writes, before, chosen, key, n);
        lemma_other_writes_formulas(g, writes, before, chosen, key, (n - 1) as nat, low, nodes);
        lemma_other_writes(g, writes, before, chosen, key, 0, (n - 1) as nat, nodes);
        lemma_other_writes(g, writes, before, chosen, key, (n - 1) as nat, n, nodes);
        assert forall|p: int| 0 <= p < now.1.len() implies formula_within(
            #[trigger] now.1[p],
            low,
            now.0.n_variables,
        ) by {
            if p < prev.1.len() {
                assert(now.1[p] == prev.1[p]);
                lemma_formula_wider(prev.1[p], low, prev.0.n_variables, now.0.n_variables);
            } else {
                let fresh = prev.0.n_variables + 1;
                let old_one = variable_at(before, n - 1);
                let pair = seq![Formula::Atom(positive(fresh)), Formula::Atom(positive(old_one))];
                assert(now.1[p] == Formula::Or(pair));
                assert(before[n - 1] is Some);
                assert(low < old_one <= g.n_variables);
                assert forall|l: Literal| #[trigger] mentions(now.1[p], l) implies issued_literal(
                    l,
                    low,
                    now.0.n_variables,
                ) by {
                    lemma_mentions(pair, l);
                    let w = choose|w: int| 0 <= w < pair.len() && mentions(#[trigger] pair[w], l);
                    if w == 0 {
                        assert(l == positive(fresh));
                    } else {
                        assert(pair[w] == Formula::Atom(positive(old_one)));
                        assert(l == positive(old_one));
                    }
                }
            }
        }
    }
}

/// An explanation is made of variables of the read.
pub proof fn lemma_explanation_formula(
    g: GnfModel,
    writes: Seq<Access>,
    before: Seq<Option<nat>>,
    read: Access,
    chosen: nat,
    key: Seq<u8>,
    low: nat,
    nodes: nat,
)
    requires
        before.len() == writes.len(),
        low <= g.n_variables,
        issued(before, low, g.n_variables),
        forall|j: int| 0 <= j < writes.len() && writes[j].tx != chosen ==> before[j] is Some,
        chosen < nodes,
        read.tx < nodes,
        within(writes, nodes),
    ensures
        formula_within(
            explanation(g, writes, before, read, chosen, key).1,
            low,
            explanation(g, writes, before, read, chosen, key).0.n_variables,
        ),
{
    let first = with_edge(
        g,
        chosen,
        read.tx,
        candidate(writes, read) + label_on(
            "W-R dependency from T"@,
            chosen,
            " to T"@,
            read.tx,
            key,
        ),
    );
    let others = other_writes(first, writes, before, chosen, key, writes.len());
    let e = explanation(g, writes, before, read, chosen, key);
    assert(issued(before, low, first.n_variables)) by {
        assert forall|j: int| 0 <= j < before.len() implies match #[trigger] before[j] {
            Some(v) => low < v <= first.n_variables,
            None => true,
        } by {}
    }
    lemma_other_writes_formulas(first, writes, before, chosen, key, writes.len(), low, nodes);
    lemma_other_writes(first, writes, before, chosen, key, 0, writes.len(), nodes);
    let members = seq![Formula::Atom(positive(g.n_variables + 1))] + others.1;
    assert(e.1 == Formula::And(members));
    assert forall|l: Literal| #[trigger] mentions(e.1, l) implies issued_literal(
        l,
        low,
        e.0.n_variables,
    ) by {
        lemma_mentions(members, l);
        let w = choose|w: int| 0 <= w < members.len() && mentions(#[trigger] members[w], l);
        if w == 0 {
            assert(l == positive(g.n_variables + 1));
        } else {
            assert(members[w] == others.1[w - 1]);
            assert(formula_within(others.1[w - 1], low, others.0.n_variables));
        }
    }
}

/// The explanations are made of variables of the read.
pub proof fn lemma_explanations_formulas(
    g: GnfModel,
    writes: Seq<Access>,
    before: Seq<Option<nat>>,
    read: Access,
    key: Seq<u8>,
    n: nat,
    low: nat,
    nodes: nat,
)
    requires
        n <= matching(writes, read.value, writes.len()).len(),
        before.len() == writes.len(),
        low <= g.n_variables,
        issued(before, low, g.n_variables),
        forall|j: int| 0 <= j < writes.len() ==> ((#[trigger] before[j]) is None <==> spared(
            writes,
            read,
            j,
        )),
        read.tx < nodes,
        within(writes, nodes),
    ensures
        forall|p: int|
            0 <= p < explanations(g, writes, before, read, key, n).1.len() ==> formula_within(
                #[trigger] explanations(g, writes, before, read, key, n).1[p],
                low,
                explanations(g, writes, before, read, key, n).0.n_variables,
            ),
    decreases n,
{
    if n > 0 {
        let ms = matching(writes, read.value, writes.len());
        let prev = explanations(g, writes, before, read, key, (n - 1) as nat);
        let now = explanations(g, writes, before, read, key, n);
        let chosen = ms[n - 1];
        lemma_matching_within(writes, read.value, writes.len(), nodes);
        lemma_explanations_formulas(g, writes, before, read, key, (n - 1) as nat, low, nodes);
        lemma_explanations(g, writes, before, read, key, 0, (n - 1) as nat, nodes);
        lemma_explanation(prev.0, writes, before, read, chosen, key, nodes);
        assert(issued(before, low, prev.0.n_variables)) by {
            assert forall|j: int| 0 <= j < before.len() implies match #[trigger] before[j] {
                Some(v) => low < v <= prev.0.n_variables,
                None => true,
            } by {}
        }
        assert forall|j: int| 0 <= j < writes.len() && writes[j].tx != chosen implies before[j] is Some by {
            if before[j] is None {
                assert(spared(writes, read, j));
            }
        }
        lemma_explanation_formula(prev.0, writes, before, read, chosen, key, low, nodes);
        assert forall|p: int| 0 <= p < now.1.len() implies formula_within(
            #[trigger] now.1[p],
            low,
            now.0.n_variables,
        ) by {
            if p < prev.1.len() {
                assert(now.1[p] == prev.1[p]);
                lemma_formula_wider(prev.1[p], low, prev.0.n_variables, now.0.n_variables);
            }
        }
    }
}

/// The edges and the clauses of a read's choice continue the document, and
/// the choice is made of the read's own variables.
pub proof fn lemma_choice(g: GnfModel, writes: Seq<Access>, read: Access, key: Seq<u8>, nodes: nat)
    requires
        read.tx < nodes,
        within(writes, nodes),
    ensures
        continues(g, choice(g, writes, read, key).0, nodes),
        continues(g, encode_choice(g, writes, read, key), nodes),
        continues(
            read_before_writes(g, writes, read, key, writes.len()).0,
            choice(g, writes, read, key).0,
            nodes,
        ),
        formula_within(
            choice(g, writes, read, key).1,
            g.n_variables,
            choice(g, writes, read, key).0.n_variables,
        ),
{
    let before = read_before_writes(g, writes, read, key, writes.len());
    let ms = matching(writes, read.value, writes.len());
    let c = choice(g, writes, read, key);
    let low = g.n_variables;
    lemma_read_before_writes(g, writes, read, key, 0, writes.len(), nodes);
    lemma_explanations(before.0, writes, before.1, read, key, 0, ms.len(), nodes);
    lemma_continues_chain(g, before.0, c.0, nodes);
    lemma_explanations_formulas(before.0, writes, before.1, read, key, ms.len(), low, nodes);
    let found = explanations(before.0, writes, before.1, read, key, ms.len());
    let members = if read.value is None {
        found.1.push(before_all(before.1))
    } else {
        found.1
    };
    assert(c.1 == Formula::Or(members));
    assert forall|l: Literal| #[trigger] mentions(c.1, l) implies issued_literal(
        l,
        low,
        c.0.n_variables,
    ) by {
        lemma_mentions(members, l);
        let w = choose|w: int| 0 <= w < members.len() && mentions(#[trigger] members[w], l);
        if w < found.1.len() {
            assert(members[w] == found.1[w]);
            assert(formula_within(found.1[w], low, found.0.n_variables));
        } else {
            let all = children(before_all(before.1));
            lemma_mentions(all, l);
            let j = choose|j: int| 0 <= j < all.len() && mentions(#[trigger] all[j], l);
            assert(all[j] == Formula::Atom(positive(variable_at(before.1, j))));
            assert(!spared(writes, read, j));
            assert(before.1[j] is Some);
            let v = variable_at(before.1, j);
            assert(low < v <= before.0.n_variables);
            assert(l == positive(v));
        }
    }
    let g2 = encode_choice(g, writes, read, key);
    assert forall|i: int, j: int, k: int|
        g.groups.len() <= i < g2.groups.len() && 0 <= j < g2.groups[i].clauses.len() && 0 <= k
            < g2.groups[i].clauses[j].len() implies issued_literal(
        #[trigger] g2.groups[i].clauses[j][k],
        g.n_variables,
        g2.n_variables,
    ) by {
        let l = g2.groups[i].clauses[j][k];
        if i < c.0.groups.len() {
            assert(g2.groups[i] == c.0.groups[i]);
            assert(issued_literal(c.0.groups[i].clauses[j][k], g.n_variables, c.0.n_variables));
        } else {
            assert(g2.groups[i].clauses == cnf(c.1));
            assert(cnf(c.1)[j].contains(l));
            lemma_cnf_mentions(c.1, j, l);
        }
    }
}

/// What the reads say beside several writes continues the document, the more
/// the further.
pub proof fn lemma_encode_choices(
    g: GnfModel,
    writes: Seq<Access>,
    reads: Seq<Access>,
    key: Seq<u8>,
    m: nat,
    n: nat,
    nodes: nat,
)
    requires
        m <= n <= reads.len(),
        within(reads, nodes),
        within(writes, nodes),
    ensures
        continues(
            encode_choices(g, writes, reads, key, m),
            encode_choices(g, writes, reads, key, n),
            nodes,
        ),
    decreases n,
{
    if m < n {
        lemma_encode_choices(g, writes, reads, key, m, (n - 1) as nat, nodes);
        let prev = encode_choices(g, writes, reads, key, (n - 1) as nat);
        lemma_choice(prev, writes, reads[n - 1], key, nodes);
        lemma_continues_chain(
            encode_choices(g, writes, reads, key, m),
            prev,
            encode_choices(g, writes, reads, key, n),
            nodes,
        );
    }
}

/// What the reads of a key say continues the document.
pub proof fn lemma_encode_key(
    g: GnfModel,
    writes: Seq<Access>,
    reads: Seq<Access>,
    key: Seq<u8>,
    nodes: nat,
)
    requires
        within(reads, nodes),
        within(writes, nodes),
    ensures
        continues(g, encode_key(g, writes, reads, key), nodes),
{
    if writes.len() == 1 {
        lemma_encode_single_reads(g, writes[0], reads, key, 0, reads.len(), nodes);
    } else if writes.len() > 1 {
        lemma_encode_choices(g, writes, reads, key, 0, reads.len(), nodes);
    }
}

/// The reads and writes of transaction `t` belong to transaction `t`.
pub proof fn lemma_tx_accesses_within(tx: TransactionModel, t: nat, key: Seq<u8>, n: nat)
    ensures
        within(tx_reads(tx, t, key, n), t + 1),
        within(tx_writes(tx, t, key, n), t + 1),
    decreases n,
{
    if n > 0 && n <= tx.ops.len() {
        lemma_tx_accesses_within(tx, t, key, (n - 1) as nat);
    }
}

/// The reads and writes of a history belong to its transactions.
pub proof fn lemma_accesses_within(h: Seq<TransactionModel>, key: Seq<u8>, m: nat)
    requires
        m <= h.len(),
    ensures
        within(reads_of(h, key, m), m),
        within(writes_of(h, key, m), m),
    decreases m,
{
    if m > 0 {
        lemma_accesses_within(h, key, (m - 1) as nat);
        lemma_tx_accesses_within(h[m - 1], (m - 1) as nat, key, h[m - 1].ops.len());
    }
}

/// What the reads of the keys say continues the document, the more the
/// further.
pub proof fn lemma_encode_keys(
    h: Seq<TransactionModel>,
    g: GnfModel,
    keys: Seq<Seq<u8>>,
    m: nat,
    n: nat,
)
    requires
        m <= n <= keys.len(),
    ensures
        continues(encode_keys(h, g, keys, m), encode_keys(h, g, keys, n), h.len()),
    decreases n,
{
    if m < n {
        lemma_encode_keys(h, g, keys, m, (n - 1) as nat);
        let prev = encode_keys(h, g, keys, (n - 1) as nat);
        lemma_accesses_within(h, keys[n - 1], h.len());
        lemma_encode_key(
            prev,
            writes_of(h, keys[n - 1], h.len()),
            reads_of(h, keys[n - 1], h.len()),
            keys[n - 1],
            h.len(),
        );
        lemma_continues_chain(
            encode_keys(h, g, keys, m),
            prev,
            encode_keys(h, g, keys, n),
            h.len(),
        );
    }
}

/// The encoding of a history, where its variables can be counted, is a
/// well-formed document with one node for each transaction, in which each
/// variable but the first is carried by one edge, the edges in the order of
/// their variables; so that the last variable handed out is in use.
pub proof fn lemma_encoding(h: Seq<TransactionModel>)
    requires
        fits(encoding(h)),
    ensures
        well_formed(encoding(h)),
        encoding(h).n_nodes == h.len(),
        encoding(h).n_variables == encoding(h).edges.len() + 1,
        forall|i: int|
            0 <= i < encoding(h).edges.len() ==> (#[trigger] encoding(h).edges[i]).variable == i
                + 2,
        referenced(encoding(h), encoding(h).n_variables),
{
    let start = with_nodes(initial(), h.len());
    let keys = all_keys(specs_of(h));
    let g = encoding(h);
    lemma_realtime(h, start, 0, h.len());
    lemma_encode_keys(h, timed(h), keys, 0, keys.len());
    lemma_continues_chain(start, timed(h), g, h.len());
    assert(continues(start, g, h.len()));
    assert(start.groups[0].clauses[0] == unit(1));
    assert(g.groups[0] == start.groups[0]);
    assert(asserts(g.groups[0].clauses[0], 1)) by {
        assert(unit(1)[0] == positive(1));
    }
    assert forall|i: int, c: int, k: int|
        0 <= i < g.groups.len() && 0 <= c < g.groups[i].clauses.len() && 0 <= k
            < g.groups[i].clauses[c].len() implies (if i == 0 {
        c == 0 && k == 0 && g.groups[i].clauses[c][k] == positive(1)
    } else {
        g.groups[i].clauses[c][k] is Variable && 2 <= variable_of(
            #[trigger] g.groups[i].clauses[c][k],
        ) <= g.n_variables
    }) by {
        let l = g.groups[i].clauses[c][k];
        if i > 0 {
            assert(issued_literal(l, start.n_variables, g.n_variables));
            let v = choose|v: nat| 1 < v <= g.n_variables && l == #[trigger] positive(v);
            assert(variable_of(positive(v)) == v);
        }
    }
    assert forall|i2: int, c2: int|
        0 <= i2 < g.groups.len() && 0 <= c2 < g.groups[i2].clauses.len() && asserts(
            #[trigger] g.groups[i2].clauses[c2],
            g.acyclic_variable,
        ) implies i2 == 0 && c2 == 0 by {
        if i2 > 0 {
            assert(2 <= variable_of(g.groups[i2].clauses[c2][0]));
        }
    }
    assert forall|i: int, c: int, k: int|
        0 <= i < g.groups.len() && 0 <= c < g.groups[i].clauses.len() && 0 <= k
            < g.groups[i].clauses[c].len() implies 1 <= variable_of(
        #[trigger] g.groups[i].clauses[c][k],
    ) <= g.n_variables by {
        if i == 0 {
            assert(g.groups[i].clauses[c][k] == positive(1));
        }
    }
    assert forall|i: int| 0 <= i < g.edges.len() implies (#[trigger] g.edges[i]).variable == i
        + 2 by {}
    if g.edges.len() > 0 {
        assert(g.edges[g.edges.len() - 1].variable == g.n_variables);
    }
}

/// The document holds an edge from `from` to `to` whose variable a clause
/// asserts: an edge that is there without condition.
pub open spec fn has_asserted_edge(g: GnfModel, from: nat, to: nat) -> bool {
    exists|e: int, c: int|
        0 <= e < g.edges.len() && 0 <= c < g.groups.len() && (#[trigger] g.edges[e]).from == from
            && g.edges[e].to == to && (#[trigger] g.groups[c]).clauses == seq![
            unit(g.edges[e].variable),
        ]
}

/// What a document holds, every continuation of it holds.
pub proof fn lemma_asserted_edge_stays(g: GnfModel, g2: GnfModel, from: nat, to: nat, nodes: nat)
    requires
        continues(g, g2, nodes),
        has_asserted_edge(g, from, to),
    ensures
        has_asserted_edge(g2, from, to),
{
    let (e, c) = choose|e: int, c: int|
        0 <= e < g.edges.len() && 0 <= c < g.groups.len() && (#[trigger] g.edges[e]).from == from
            && g.edges[e].to == to && (#[trigger] g.groups[c]).clauses == seq![
            unit(g.edges[e].variable),
        ];
    assert(g2.edges[e] == g.edges[e]);
    assert(g2.groups[c] == g.groups[c]);
}

/// After the edges in real time from transaction `i` to the first `n`
/// transactions, every one of these that started after `i` ended has its
/// edge.
pub proof fn lemma_realtime_row_complete(
    h: Seq<TransactionModel>,
    g: GnfModel,
    i: int,
    n: nat,
    j: int,
)
    requires
        0 <= i < h.len(),
        0 <= j < n <= h.len(),
        before_in_time(h, i, j),
    ensures
        has_asserted_edge(realtime_row(h, g, i, n), i as nat, j as nat),
    decreases n,
{
    let now = realtime_row(h, g, i, n);
    if j == n - 1 {
        let prev = realtime_row(h, g, i, (n - 1) as nat);
        let e = prev.edges.len() as int;
        let c = prev.groups.len() as int;
        assert(now.edges[e].from == i && now.edges[e].to == j);
        assert(now.groups[c].clauses == seq![unit(now.edges[e].variable)]);
    } else {
        lemma_realtime_row_complete(h, g, i, (n - 1) as nat, j);
        lemma_realtime_row(h, g, i, (n - 1) as nat, n);
        lemma_asserted_edge_stays(
            realtime_row(h, g, i, (n - 1) as nat),
            now,
            i as nat,
            j as nat,
            h.len(),
        );
    }
}

/// For every two transactions that ran to their end, the second started
/// after the first ended, the encoding holds an edge from the first to the
/// second that is there without condition.
pub proof fn lemma_encoding_realtime(h: Seq<TransactionModel>, i: int, j: int)
    requires
        0 <= i < h.len(),
        0 <= j < h.len(),
        before_in_time(h, i, j),
    ensures
        has_asserted_edge(encoding(h), i as nat, j as nat),
{
    let start = with_nodes(initial(), h.len());
    let keys = all_keys(specs_of(h));
    let row_start = realtime(h, start, i as nat);
    lemma_realtime_row_complete(h, row_start, i, h.len(), j);
    assert(realtime(h, start, (i + 1) as nat) == realtime_row(h, row_start, i, h.len()));
    lemma_realtime(h, start, (i + 1) as nat, h.len());
    lemma_asserted_edge_stays(
        realtime(h, start, (i + 1) as nat),
        timed(h),
        i as nat,
        j as nat,
        h.len(),
    );
    lemma_encode_keys(h, timed(h), keys, 0, keys.len());
    lemma_asserted_edge_stays(timed(h), encoding(h), i as nat, j as nat, h.len());
}

/// After the first `n` reads beside a single write of a value, each of them
/// has its edge: to the write if it saw nothing, from the write if it saw
/// the value.
pub proof fn lemma_single_reads_complete(
    g: GnfModel,
    write: Access,
    reads: Seq<Access>,
    key: Seq<u8>,
    n: nat,
    i: int,
    nodes: nat,
)
    requires
        0 <= i < n <= reads.len(),
        write.tx < nodes,
        within(reads, nodes),
        write.value is Some,
        reads[i].value is None || reads[i].value == write.value,
    ensures
        reads[i].value is None ==> has_asserted_edge(
            encode_single_reads(g, write, reads, key, n),
            reads[i].tx,
            write.tx,
        ),
        reads[i].value is Some ==> has_asserted_edge(
            encode_single_reads(g, write, reads, key, n),
            write.tx,
            reads[i].tx,
        ),
    decreases n,
{
    let now = encode_single_reads(g, write, reads, key, n);
    let prev = encode_single_reads(g, write, reads, key, (n - 1) as nat);
    if i == n - 1 {
        let e = prev.edges.len() as int;
        let c = prev.groups.len() as int;
        assert(now == encode_single(prev, write, reads[i], key));
        assert(now.groups[c].clauses == seq![unit(now.edges[e].variable)]);
        if reads[i].value is None {
            assert(now.edges[e].from == reads[i].tx && now.edges[e].to == write.tx);
        } else {
            assert(now.edges[e].from == write.tx && now.edges[e].to == reads[i].tx);
        }
    } else {
        lemma_single_reads_complete(g, write, reads, key, (n - 1) as nat, i, nodes);
        lemma_encode_single_reads(g, write, reads, key, (n - 1) as nat, n, nodes);
        if reads[i].value is None {
            lemma_asserted_edge_stays(prev, now, reads[i].tx, write.tx, nodes);
        } else {
            lemma_asserted_edge_stays(prev, now, write.tx, reads[i].tx, nodes);
        }
    }
}

/// Where a key has a single write, of a value, the encoding holds for each
/// read of the key an edge that is there without condition: from the read
/// to the write if the read saw nothing, from the write to the read if it
/// saw the value written.
pub proof fn lemma_encoding_single_write(h: Seq<TransactionModel>, k: int, i: int)
    requires
        0 <= k < all_keys(specs_of(h)).len(),
        writes_of(h, all_keys(specs_of(h))[k], h.len()).len() == 1,
        writes_of(
            h,
            all_keys(specs_of(h))[k],
            h.len(),
        )[0].value is Some,
        0 <= i < reads_of(h, all_keys(specs_of(h))[k], h.len()).len(),
        !value_from_nowhere(h),
    ensures
        ({
            let key = all_keys(specs_of(h))[k];
            let write = writes_of(h, key, h.len())[0];
            let read = reads_of(h, key, h.len())[i];
            if read.value is None {
                has_asserted_edge(encoding(h), read.tx, write.tx)
            } else {
                has_asserted_edge(encoding(h), write.tx, read.tx)
            }
        }),
{
    let keys = all_keys(specs_of(h));
    let key = keys[k];
    let writes = writes_of(h, key, h.len());
    let reads = reads_of(h, key, h.len());
    let write = writes[0];
    let read = reads[i];
    let prev = encode_keys(h, timed(h), keys, k as nat);
    let now = encode_keys(h, timed(h), keys, (k + 1) as nat);
    lemma_accesses_within(h, key, h.len());
    assert(!key_is_impossible(h, key));
    assert(!unexplained(read, writes));
    if read.value is Some {
        let j = choose|j: int| 0 <= j < writes.len() && (#[trigger] writes[j]).value == read.value;
        assert(j == 0);
    }
    assert(now == encode_single_reads(prev, write, reads, key, reads.len()));
    lemma_single_reads_complete(prev, write, reads, key, reads.len(), i, h.len());
    lemma_encode_keys(h, timed(h), keys, (k + 1) as nat, keys.len());
    if read.value is None {
        lemma_asserted_edge_stays(now, encoding(h), read.tx, write.tx, h.len());
    } else {
        lemma_asserted_edge_stays(now, encoding(h), write.tx, read.tx, h.len());
    }
}

/// The clauses that a read adds where its key has several writes hold under
/// exactly the assignments under which the read's choice holds: one of its
/// explanations, or, for a read of nothing, its coming before every write.
pub proof fn lemma_choice_clauses(g: GnfModel, writes: Seq<Access>, read: Access, key: Seq<u8>)
    ensures
        encode_choice(g, writes, read, key).groups.len() == choice(
            g,
            writes,
            read,
            key,
        ).0.groups.len() + 1,
        forall|a: Assignment|
            clauses_hold(encode_choice(g, writes, read, key).groups.last().clauses, a)
                == holds(choice(g, writes, read, key).1, a),
{
    lemma_cnf_equivalent(choice(g, writes, read, key).1);
}

} // verus!
