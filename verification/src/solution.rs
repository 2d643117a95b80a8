//! What it means to solve a document, and what every solution of the
//! encoding of a history says of the order of its transactions.

use crate::clause::{clause_holds, clauses_hold};
use crate::encoding::{
    before_all, before_in_time, candidate, choice, encode_choice, encode_choices, encode_keys,
    encoding, explanation, explanations, label_on, matching, other_writes, positive,
    read_before_writes, reads_of, spared, specs_of, timed, unit, value_from_nowhere,
    variable_at, with_edge, writes_of, Access,
};
use crate::formula::{
    children, holds, lemma_holds_and, lemma_holds_or, literal_holds, Assignment, Formula,
};
use crate::gnf::GnfModel;
use crate::history::TransactionModel;
use crate::keys::all_keys;
use crate::progress::{
    continues, has_asserted_edge, lemma_accesses_within, lemma_choice, lemma_choice_clauses,
    lemma_continues_chain, lemma_encode_choices, lemma_encode_keys, lemma_encoding_realtime,
    lemma_encoding_single_write, lemma_explanation, lemma_explanations, lemma_matching_within,
    lemma_other_writes, lemma_read_before_writes, within,
};
use vstd::prelude::*;

verus! {

/// A place for each node in an order.
pub type Ranking = spec_fn(nat) -> int;

/// The assignment and the ranking solve the document: every clause holds
/// under the assignment, the acyclicity variable is true, and every edge
/// whose variable is true leads from a node to a node of higher rank, which
/// is what it means for these edges to form no cycle.
pub open spec fn solves(g: GnfModel, a: Assignment, rank: Ranking) -> bool {
    &&& forall|i: int| 0 <= i < g.groups.len() ==> clauses_hold((#[trigger] g.groups[i]).clauses, a)
    &&& a(g.acyclic_variable as usize)
    &&& forall|e: int|
        0 <= e < g.edges.len() && a((#[trigger] g.edges[e]).variable as usize) ==> rank(
            g.edges[e].from,
        ) < rank(g.edges[e].to)
}

/// An edge that is there without condition orders its ends in every
/// solution.
pub proof fn lemma_asserted_edge_orders(
    g: GnfModel,
    a: Assignment,
    rank: Ranking,
    from: nat,
    to: nat,
)
    requires
        solves(g, a, rank),
        has_asserted_edge(g, from, to),
    ensures
        rank(from) < rank(to),
{
    let (e, c) = choose|e: int, c: int|
        0 <= e < g.edges.len() && 0 <= c < g.groups.len() && (#[trigger] g.edges[e]).from == from
            && g.edges[e].to == to && (#[trigger] g.groups[c]).clauses == seq![
            unit(g.edges[e].variable),
        ];
    let clauses = g.groups[c].clauses;
    assert(clauses_hold(clauses, a));
    assert(clause_holds(clauses[0], a));
    let clause = unit(g.edges[e].variable);
    let k = choose|k: int| 0 <= k < clause.len() && literal_holds(#[trigger] clause[k], a);
    assert(clause[k] == positive(g.edges[e].variable));
}

/// Every solution of the encoding of a history respects real time: where
/// two transactions ran to their end, the second having started after the
/// first ended, the first has the lower rank.
pub proof fn lemma_solutions_respect_real_time(
    h: Seq<TransactionModel>,
    a: Assignment,
    rank: Ranking,
    i: int,
    j: int,
)
    requires
        solves(encoding(h), a, rank),
        0 <= i < h.len(),
        0 <= j < h.len(),
        before_in_time(h, i, j),
    ensures
        rank(i as nat) < rank(j as nat),
{
    lemma_encoding_realtime(h, i, j);
    lemma_asserted_edge_orders(encoding(h), a, rank, i as nat, j as nat);
}

/// Every solution of the encoding of a history puts the reads of a key
/// with a single write, of a value, on the right side of the write: before
/// it if they saw nothing, after it if they saw the value.
pub proof fn lemma_solutions_respect_single_writes(
    h: Seq<TransactionModel>,
    a: Assignment,
    rank: Ranking,
    k: int,
    i: int,
)
    requires
        solves(encoding(h), a, rank),
        !value_from_nowhere(h),
        0 <= k < all_keys(specs_of(h)).len(),
        writes_of(h, all_keys(specs_of(h))[k], h.len()).len() == 1,
        writes_of(h, all_keys(specs_of(h))[k], h.len())[0].value is Some,
        0 <= i < reads_of(h, all_keys(specs_of(h))[k], h.len()).len(),
    ensures
        ({
            let key = all_keys(specs_of(h))[k];
            let write = writes_of(h, key, h.len())[0];
            let read = reads_of(h, key, h.len())[i];
            if read.value is None {
                rank(read.tx) < rank(write.tx)
            } else {
                rank(write.tx) < rank(read.tx)
            }
        }),
{
    let key = all_keys(specs_of(h))[k];
    let write = writes_of(h, key, h.len())[0];
    let read = reads_of(h, key, h.len())[i];
    lemma_encoding_single_write(h, k, i);
    if read.value is None {
        lemma_asserted_edge_orders(encoding(h), a, rank, read.tx, write.tx);
    } else {
        lemma_asserted_edge_orders(encoding(h), a, rank, write.tx, read.tx);
    }
}

/// The document holds an edge from `from` to `to` that variable `v`
/// switches.
pub open spec fn carries(g: GnfModel, v: nat, from: nat, to: nat) -> bool {
    exists|e: int|
        0 <= e < g.edges.len() && (#[trigger] g.edges[e]).variable == v && g.edges[e].from == from
            && g.edges[e].to == to
}

/// The edges of `g` are the first edges of `g2`.
pub open spec fn edges_kept(g: GnfModel, g2: GnfModel) -> bool {
    &&& g.edges.len() <= g2.edges.len()
    &&& forall|e: int| 0 <= e < g.edges.len() ==> #[trigger] g2.edges[e] == g.edges[e]
}

/// A continuation keeps the edges.
pub proof fn lemma_continuation_keeps_edges(g: GnfModel, g2: GnfModel, nodes: nat)
    requires
        continues(g, g2, nodes),
    ensures
        edges_kept(g, g2),
{
}

/// Edges that are kept twice over are kept.
pub proof fn lemma_edges_kept_chain(a: GnfModel, b: GnfModel, c: GnfModel)
    requires
        edges_kept(a, b),
        edges_kept(b, c),
    ensures
        edges_kept(a, c),
{
    assert forall|e: int| 0 <= e < a.edges.len() implies #[trigger] c.edges[e] == a.edges[e] by {
        assert(b.edges[e] == a.edges[e]);
    }
}

/// The edges of a document are edges of every document that keeps them.
pub proof fn lemma_carries_stays(g: GnfModel, g2: GnfModel, v: nat, from: nat, to: nat)
    requires
        edges_kept(g, g2),
        carries(g, v, from, to),
    ensures
        carries(g2, v, from, to),
{
    let e = choose|e: int|
        0 <= e < g.edges.len() && (#[trigger] g.edges[e]).variable == v && g.edges[e].from == from
            && g.edges[e].to == to;
    assert(g2.edges[e] == g.edges[e]);
}

/// An edge whose variable is true orders its ends in every solution.
pub proof fn lemma_carried_orders(
    g: GnfModel,
    a: Assignment,
    rank: Ranking,
    v: nat,
    from: nat,
    to: nat,
)
    requires
        solves(g, a, rank),
        carries(g, v, from, to),
        a(v as usize),
    ensures
        rank(from) < rank(to),
{
    let e = choose|e: int|
        0 <= e < g.edges.len() && (#[trigger] g.edges[e]).variable == v && g.edges[e].from == from
            && g.edges[e].to == to;
    assert(a(g.edges[e].variable as usize));
}

/// The read is explained under the ranking: a write of the value read comes
/// before the read, and every write of another transaction comes before
/// that write or after the read; or the read saw nothing and comes before
/// every write.
pub open spec fn explained(writes: Seq<Access>, read: Access, rank: Ranking) -> bool {
    ||| exists|k: int|
        0 <= k < writes.len() && (#[trigger] writes[k]).value == read.value && rank(writes[k].tx)
            < rank(read.tx) && others_apart(writes, read.tx, writes[k].tx, writes.len(), rank)
    ||| read.value is None && forall|j: int|
        0 <= j < writes.len() ==> rank(read.tx) < rank((#[trigger] writes[j]).tx)
}

/// Each of the first `n` writes that is of another transaction than
/// `chosen` comes before `chosen` or after the read.
pub open spec fn others_apart(
    writes: Seq<Access>,
    read_tx: nat,
    chosen: nat,
    n: nat,
    rank: Ranking,
) -> bool {
    forall|j: int|
        0 <= j < n && (#[trigger] writes[j]).tx != chosen ==> rank(writes[j].tx) < rank(chosen)
            || rank(read_tx) < rank(writes[j].tx)
}

/// The edges from a read to the writes are in the document, each under its
/// variable.
pub proof fn lemma_before_carried(
    g: GnfModel,
    writes: Seq<Access>,
    read: Access,
    key: Seq<u8>,
    n: nat,
    nodes: nat,
)
    requires
        n <= writes.len(),
        read.tx < nodes,
        within(writes, nodes),
    ensures
        forall|j: int|
            0 <= j < n ==> match #[trigger] read_before_writes(g, writes, read, key, n).1[j] {
                Some(v) => carries(
                    read_before_writes(g, writes, read, key, n).0,
                    v,
                    read.tx,
                    writes[j].tx,
                ),
                None => true,
            },
    decreases n,
{
    if n > 0 {
        let prev = read_before_writes(g, writes, read, key, (n - 1) as nat);
        let now = read_before_writes(g, writes, read, key, n);
        lemma_before_carried(g, writes, read, key, (n - 1) as nat, nodes);
        lemma_read_before_writes(g, writes, read, key, (n - 1) as nat, n, nodes);
        lemma_read_before_writes(g, writes, read, key, 0, (n - 1) as nat, nodes);
        assert forall|j: int| 0 <= j < n implies match #[trigger] now.1[j] {
            Some(v) => carries(now.0, v, read.tx, writes[j].tx),
            None => true,
        } by {
            if j < n - 1 {
                assert(now.1[j] == prev.1[j]);
                match prev.1[j] {
                    Some(v) => {
                        lemma_continuation_keeps_edges(prev.0, now.0, nodes);
                        lemma_carries_stays(prev.0, now.0, v, read.tx, writes[j].tx);
                    },
                    None => {},
                }
            } else {
                match now.1[j] {
                    Some(v) => {
                        let e = prev.0.edges.len() as int;
                        assert(now.0.edges[e].variable == v);
                    },
                    None => {},
                }
            }
        }
    }
}

/// Where the conditions on the other writes hold in a solution, the other
/// writes come before the chosen one or after the read.
pub proof fn lemma_other_writes_order(
    done: GnfModel,
    a: Assignment,
    rank: Ranking,
    g: GnfModel,
    writes: Seq<Access>,
    before: Seq<Option<nat>>,
    read_tx: nat,
    chosen: nat,
    key: Seq<u8>,
    n: nat,
    nodes: nat,
)
    requires
        n <= writes.len(),
        before.len() == writes.len(),
        chosen < nodes,
        within(writes, nodes),
        solves(done, a, rank),
        edges_kept(other_writes(g, writes, before, chosen, key, n).0, done),
        forall|j: int|
            0 <= j < writes.len() && writes[j].tx != chosen ==> (#[trigger] before[j]) is Some
                && carries(done, before[j]->Some_0, read_tx, writes[j].tx),
        forall|p: int|
            0 <= p < other_writes(g, writes, before, chosen, key, n).1.len() ==> holds(
                #[trigger] other_writes(g, writes, before, chosen, key, n).1[p],
                a,
            ),
    ensures
        others_apart(writes, read_tx, chosen, n, rank),
    decreases n,
{
    if n > 0 {
        let prev = other_writes(g, writes, before, chosen, key, (n - 1) as nat);
        let now = other_writes(g, writes, before, chosen, key, n);
        lemma_other_writes(g, writes, before, chosen, key, (n - 1) as nat, n, nodes);
        lemma_continuation_keeps_edges(prev.0, now.0, nodes);
        lemma_edges_kept_chain(prev.0, now.0, done);
        assert forall|p: int| 0 <= p < prev.1.len() implies holds(#[trigger] prev.1[p], a) by {
            assert(now.1[p] == prev.1[p]);
        }
        lemma_other_writes_order(
            done,
            a,
            rank,
            g,
            writes,
            before,
            read_tx,
            chosen,
            key,
            (n - 1) as nat,
            nodes,
        );
        if writes[n - 1].tx != chosen {
            let fresh = prev.0.n_variables + 1;
            let other = variable_at(before, n - 1);
            let pair = seq![Formula::Atom(positive(fresh)), Formula::Atom(positive(other))];
            assert(now.1[now.1.len() - 1] == Formula::Or(pair));
            assert(holds(Formula::Or(pair), a));
            lemma_holds_or(pair, a);
            let w = choose|w: int| 0 <= w < pair.len() && holds(#[trigger] pair[w], a);
            if w == 0 {
                assert(a(fresh as usize));
                let e = prev.0.edges.len() as int;
                assert(now.0.edges[e].variable == fresh);
                assert(carries(now.0, fresh, writes[n - 1].tx, chosen));
                lemma_carries_stays(now.0, done, fresh, writes[n - 1].tx, chosen);
                lemma_carried_orders(done, a, rank, fresh, writes[n - 1].tx, chosen);
            } else {
                assert(pair[w] == Formula::Atom(positive(other)));
                assert(a(other as usize));
                assert(before[n - 1] is Some);
                lemma_carried_orders(done, a, rank, other, read_tx, writes[n - 1].tx);
            }
        }
    }
}

/// Where an explanation holds in a solution, the chosen write comes before
/// the read, and the other writes before the chosen one or after the read.
pub proof fn lemma_explanation_orders(
    done: GnfModel,
    a: Assignment,
    rank: Ranking,
    g: GnfModel,
    writes: Seq<Access>,
    before: Seq<Option<nat>>,
    read: Access,
    chosen: nat,
    key: Seq<u8>,
    nodes: nat,
)
    requires
        before.len() == writes.len(),
        chosen < nodes,
        read.tx < nodes,
        within(writes, nodes),
        solves(done, a, rank),
        edges_kept(explanation(g, writes, before, read, chosen, key).0, done),
        forall|j: int|
            0 <= j < writes.len() && writes[j].tx != chosen ==> (#[trigger] before[j]) is Some
                && carries(done, before[j]->Some_0, read.tx, writes[j].tx),
        holds(explanation(g, writes, before, read, chosen, key).1, a),
    ensures
        rank(chosen) < rank(read.tx),
        others_apart(writes, read.tx, chosen, writes.len(), rank),
{
    let first = with_edge(
        g,
        chosen,
        read.tx,
        candidate(writes, read) + label_on(
            "W-R dependency from T"@,
            chosen,
            " to T"@,
            read.tx,
            key,
        ),
    );
    let others = other_writes(first, writes, before, chosen, key, writes.len());
    let members = seq![Formula::Atom(positive(g.n_variables + 1))] + others.1;
    lemma_holds_and(members, a);
    assert(holds(members[0], a));
    assert(a((g.n_variables + 1) as usize));
    let e = g.edges.len() as int;
    assert(first.edges[e].variable == g.n_variables + 1);
    assert(carries(first, g.n_variables + 1, chosen, read.tx));
    lemma_other_writes(first, writes, before, chosen, key, 0, writes.len(), nodes);
    lemma_continuation_keeps_edges(first, others.0, nodes);
    lemma_edges_kept_chain(first, others.0, done);
    lemma_carries_stays(first, done, g.n_variables + 1, chosen, read.tx);
    lemma_carried_orders(done, a, rank, g.n_variables + 1, chosen, read.tx);
    assert forall|p: int| 0 <= p < others.1.len() implies holds(#[trigger] others.1[p], a) by {
        assert(members[p + 1] == others.1[p]);
        assert(holds(members[p + 1], a));
    }
    lemma_other_writes_order(
        done,
        a,
        rank,
        first,
        writes,
        before,
        read.tx,
        chosen,
        key,
        writes.len(),
        nodes,
    );
}

/// Each of the matching transactions is that of a write of the value.
pub proof fn lemma_matching_source(writes: Seq<Access>, value: Option<Seq<u8>>, n: nat, p: int)
    requires
        n <= writes.len(),
        0 <= p < matching(writes, value, n).len(),
    ensures
        exists|k: int|
            0 <= k < n && (#[trigger] writes[k]).value == value && writes[k].tx == matching(
                writes,
                value,
                n,
            )[p],
    decreases n,
{
    if n > 0 {
        let prev = matching(writes, value, (n - 1) as nat);
        if p < prev.len() {
            lemma_matching_source(writes, value, (n - 1) as nat, p);
            let k = choose|k: int|
                0 <= k < n - 1 && (#[trigger] writes[k]).value == value && writes[k].tx == prev[p];
            assert(0 <= k < n && writes[k].value == value && writes[k].tx == matching(
                writes,
                value,
                n,
            )[p]);
        } else {
            assert(writes[n - 1].value == value);
        }
    }
}

/// Where one of the first `n` explanations holds in a solution, the read is
/// explained by a write of the value it saw.
pub proof fn lemma_explanations_order(
    done: GnfModel,
    a: Assignment,
    rank: Ranking,
    g: GnfModel,
    writes: Seq<Access>,
    before: Seq<Option<nat>>,
    read: Access,
    key: Seq<u8>,
    n: nat,
    nodes: nat,
)
    requires
        n <= matching(writes, read.value, writes.len()).len(),
        before.len() == writes.len(),
        read.tx < nodes,
        within(writes, nodes),
        solves(done, a, rank),
        edges_kept(explanations(g, writes, before, read, key, n).0, done),
        forall|j: int|
            0 <= j < writes.len() ==> match #[trigger] before[j] {
                Some(v) => carries(done, v, read.tx, writes[j].tx),
                None => spared(writes, read, j),
            },
        exists|p: int|
            0 <= p < explanations(g, writes, before, read, key, n).1.len() && holds(
                #[trigger] explanations(g, writes, before, read, key, n).1[p],
                a,
            ),
    ensures
        exists|k: int|
            0 <= k < writes.len() && (#[trigger] writes[k]).value == read.value && rank(
                writes[k].tx,
            ) < rank(read.tx) && others_apart(writes, read.tx, writes[k].tx, writes.len(), rank),
    decreases n,
{
    let ms = matching(writes, read.value, writes.len());
    let now = explanations(g, writes, before, read, key, n);
    let p = choose|p: int| 0 <= p < now.1.len() && holds(#[trigger] now.1[p], a);
    if n > 0 {
        let prev = explanations(g, writes, before, read, key, (n - 1) as nat);
        let chosen = ms[n - 1];
        lemma_matching_within(writes, read.value, writes.len(), nodes);
        lemma_explanations(g, writes, before, read, key, 0, (n - 1) as nat, nodes);
        lemma_explanation(prev.0, writes, before, read, chosen, key, nodes);
        lemma_continuation_keeps_edges(prev.0, now.0, nodes);
        if p < prev.1.len() {
            assert(now.1[p] == prev.1[p]);
            lemma_edges_kept_chain(prev.0, now.0, done);
            lemma_explanations_order(
                done,
                a,
                rank,
                g,
                writes,
                before,
                read,
                key,
                (n - 1) as nat,
                nodes,
            );
        } else {
            assert(now.1[p] == explanation(prev.0, writes, before, read, chosen, key).1);
            assert forall|j: int|
                0 <= j < writes.len() && writes[j].tx != chosen implies (#[trigger] before[j])
                is Some && carries(done, before[j]->Some_0, read.tx, writes[j].tx) by {
                if before[j] is None {
                    assert(spared(writes, read, j));
                }
            }
            lemma_explanation_orders(
                done,
                a,
                rank,
                prev.0,
                writes,
                before,
                read,
                chosen,
                key,
                nodes,
            );
            lemma_matching_source(writes, read.value, writes.len(), n - 1);
            let k = choose|k: int|
                0 <= k < writes.len() && (#[trigger] writes[k]).value == read.value
                    && writes[k].tx == ms[n - 1];
            assert(others_apart(writes, read.tx, writes[k].tx, writes.len(), rank));
        }
    }
}

/// In every solution of a document that holds what a read says beside
/// several writes, the read is explained.
pub proof fn lemma_choice_explains(
    done: GnfModel,
    a: Assignment,
    rank: Ranking,
    g: GnfModel,
    writes: Seq<Access>,
    read: Access,
    key: Seq<u8>,
    nodes: nat,
)
    requires
        read.tx < nodes,
        within(writes, nodes),
        solves(done, a, rank),
        continues(encode_choice(g, writes, read, key), done, nodes),
    ensures
        explained(writes, read, rank),
{
    let before = read_before_writes(g, writes, read, key, writes.len());
    let ms = matching(writes, read.value, writes.len());
    let found = explanations(before.0, writes, before.1, read, key, ms.len());
    let c = choice(g, writes, read, key);
    let coded = encode_choice(g, writes, read, key);
    lemma_choice(g, writes, read, key, nodes);
    lemma_choice_clauses(g, writes, read, key);
    lemma_read_before_writes(g, writes, read, key, 0, writes.len(), nodes);
    lemma_before_carried(g, writes, read, key, writes.len(), nodes);
    // the clauses of the read are among those of the solved document
    let at = c.0.groups.len() as int;
    assert(coded.groups[at] == coded.groups.last());
    assert(done.groups[at] == coded.groups[at]);
    assert(clauses_hold(done.groups[at].clauses, a));
    assert(holds(c.1, a));
    // the edges from the read to the writes are among its edges
    lemma_continuation_keeps_edges(coded, done, nodes);
    assert(edges_kept(c.0, coded));
    lemma_edges_kept_chain(c.0, coded, done);
    lemma_continuation_keeps_edges(before.0, c.0, nodes);
    lemma_edges_kept_chain(before.0, c.0, done);
    assert forall|j: int| 0 <= j < writes.len() implies match #[trigger] before.1[j] {
        Some(v) => carries(done, v, read.tx, writes[j].tx),
        None => spared(writes, read, j),
    } by {
        match before.1[j] {
            Some(v) => {
                lemma_carries_stays(before.0, done, v, read.tx, writes[j].tx);
            },
            None => {},
        }
    }
    let members = if read.value is None {
        found.1.push(before_all(before.1))
    } else {
        found.1
    };
    assert(c.1 == Formula::Or(members));
    lemma_holds_or(members, a);
    let w = choose|w: int| 0 <= w < members.len() && holds(#[trigger] members[w], a);
    if w < found.1.len() {
        assert(members[w] == found.1[w]);
        assert(holds(found.1[w], a));
        lemma_explanations_order(
            done,
            a,
            rank,
            before.0,
            writes,
            before.1,
            read,
            key,
            ms.len(),
            nodes,
        );
    } else {
        let all = children(before_all(before.1));
        lemma_holds_and(all, a);
        assert forall|j: int| 0 <= j < writes.len() implies rank(read.tx) < rank(
            (#[trigger] writes[j]).tx,
        ) by {
            assert(holds(all[j], a));
            assert(!spared(writes, read, j));
            assert(before.1[j] is Some);
            let v = variable_at(before.1, j);
            assert(a(v as usize));
            lemma_carried_orders(done, a, rank, v, read.tx, writes[j].tx);
        }
    }
}

/// In every solution of a document that holds what the first `n` reads say
/// beside several writes, each of these reads is explained.
pub proof fn lemma_choices_explain(
    done: GnfModel,
    a: Assignment,
    rank: Ranking,
    g: GnfModel,
    writes: Seq<Access>,
    reads: Seq<Access>,
    key: Seq<u8>,
    n: nat,
    i: int,
    nodes: nat,
)
    requires
        0 <= i < n <= reads.len(),
        within(reads, nodes),
        within(writes, nodes),
        solves(done, a, rank),
        continues(encode_choices(g, writes, reads, key, n), done, nodes),
    ensures
        explained(writes, reads[i], rank),
    decreases n,
{
    let prev = encode_choices(g, writes, reads, key, (n - 1) as nat);
    if i == n - 1 {
        lemma_choice_explains(done, a, rank, prev, writes, reads[i], key, nodes);
    } else {
        lemma_encode_choices(g, writes, reads, key, (n - 1) as nat, n, nodes);
        lemma_continues_chain(prev, encode_choices(g, writes, reads, key, n), done, nodes);
        lemma_choices_explain(done, a, rank, g, writes, reads, key, (n - 1) as nat, i, nodes);
    }
}

/// Every solution of the encoding of a history explains the reads of the
/// keys that have several writes: a write of the value read comes before
/// the read, with every write of another transaction before that write or
/// after the read; or the read saw nothing and comes before every write.
pub proof fn lemma_solutions_explain_reads(
    h: Seq<TransactionModel>,
    a: Assignment,
    rank: Ranking,
    k: int,
    i: int,
)
    requires
        solves(encoding(h), a, rank),
        0 <= k < all_keys(specs_of(h)).len(),
        writes_of(h, all_keys(specs_of(h))[k], h.len()).len() > 1,
        0 <= i < reads_of(h, all_keys(specs_of(h))[k], h.len()).len(),
    ensures
        explained(
            writes_of(h, all_keys(specs_of(h))[k], h.len()),
            reads_of(h, all_keys(specs_of(h))[k], h.len())[i],
            rank,
        ),
{
    let keys = all_keys(specs_of(h));
    let key = keys[k];
    let writes = writes_of(h, key, h.len());
    let reads = reads_of(h, key, h.len());
    let prev = encode_keys(h, timed(h), keys, k as nat);
    let now = encode_keys(h, timed(h), keys, (k + 1) as nat);
    lemma_accesses_within(h, key, h.len());
    assert(now == encode_choices(prev, writes, reads, key, reads.len()));
    lemma_encode_keys(h, timed(h), keys, (k + 1) as nat, keys.len());
    lemma_choices_explain(encoding(h), a, rank, prev, writes, reads, key, reads.len(), i, h.len());
}

} // verus!
