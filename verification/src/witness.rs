//! The order of the transactions and the solutions of the encoding: an
//! order that respects real time and explains every read is a solution,
//! the edges switched on being those that lead forward in the order; and
//! every solution is such an order.

use crate::clause::{clause_holds, clauses_hold};
use crate::encoding::{
    before_all, before_in_time, candidate, choice, encode_choices, encode_key, encode_keys,
    encode_single, encode_single_reads, encoding, explanation, explanations, initial, label,
    label_on, matching, other_writes, positive, read_before_writes, reads_of, realtime,
    realtime_row, spared, specs_of, timed, unit, value_from_nowhere, variable_at,
    with_asserted_edge, with_edge, with_nodes, writes_of, Access,
};
use crate::formula::{
    children, holds, lemma_holds_and, lemma_holds_or, literal_holds, Assignment, Formula,
};
use crate::gnf::GnfModel;
use crate::history::TransactionModel;
use crate::keys::all_keys;
use crate::normal::{cnf, lemma_cnf_equivalent};
use crate::progress::{
    continues, fits, lemma_accesses_within, lemma_choice, lemma_encode_choices, lemma_encode_keys,
    lemma_encode_single_reads, lemma_encoding, lemma_explanations, lemma_matching_within,
    lemma_other_writes, lemma_read_before_writes, lemma_realtime, lemma_realtime_row, within,
};
use crate::solution::{
    carries, edges_kept, explained, lemma_before_carried, lemma_carries_stays,
    lemma_continuation_keeps_edges, lemma_edges_kept_chain, lemma_solutions_explain_reads,
    lemma_solutions_respect_real_time, lemma_solutions_respect_single_writes, others_apart,
    solves, Ranking,
};
use vstd::prelude::*;

verus! {

/// What the ranking asks of a read of a history: of the read at place `i`
/// among the reads of the key at place `k`. Beside a single write of a
/// value, a read of nothing comes before the write and a read of the value
/// after it; beside several writes the read is explained; beside no write,
/// or a single removal, nothing is asked.
pub open spec fn read_respected(h: Seq<TransactionModel>, rank: Ranking, k: int, i: int) -> bool {
    let key = all_keys(specs_of(h))[k];
    let writes = writes_of(h, key, h.len());
    let read = reads_of(h, key, h.len())[i];
    if writes.len() == 1 {
        writes[0].value is Some ==> (if read.value is None {
            rank(read.tx) < rank(writes[0].tx)
        } else {
            rank(writes[0].tx) < rank(read.tx)
        })
    } else if writes.len() > 1 {
        explained(writes, read, rank)
    } else {
        true
    }
}

/// The ranking respects real time and explains every read of the history.
pub open spec fn respects(h: Seq<TransactionModel>, rank: Ranking) -> bool {
    &&& forall|i: int, j: int|
        0 <= i < h.len() && 0 <= j < h.len() && #[trigger] before_in_time(h, i, j) ==> rank(
            i as nat,
        ) < rank(j as nat)
    &&& forall|k: int, i: int|
        0 <= k < all_keys(specs_of(h)).len() && 0 <= i < reads_of(
            h,
            all_keys(specs_of(h))[k],
            h.len(),
        ).len() ==> #[trigger] read_respected(h, rank, k, i)
}

/// The ranking of every solution of the encoding of a history respects real
/// time and explains every read.
pub proof fn lemma_solutions_respect(h: Seq<TransactionModel>, a: Assignment, rank: Ranking)
    requires
        solves(encoding(h), a, rank),
        !value_from_nowhere(h),
    ensures
        respects(h, rank),
{
    assert forall|i: int, j: int|
        0 <= i < h.len() && 0 <= j < h.len() && #[trigger] before_in_time(h, i, j) implies rank(
        i as nat,
    ) < rank(j as nat) by {
        lemma_solutions_respect_real_time(h, a, rank, i, j);
    }
    assert forall|k: int, i: int|
        0 <= k < all_keys(specs_of(h)).len() && 0 <= i < reads_of(
            h,
            all_keys(specs_of(h))[k],
            h.len(),
        ).len() implies #[trigger] read_respected(h, rank, k, i) by {
        let key = all_keys(specs_of(h))[k];
        let writes = writes_of(h, key, h.len());
        if writes.len() == 1 {
            if writes[0].value is Some {
                lemma_solutions_respect_single_writes(h, a, rank, k, i);
            }
        } else if writes.len() > 1 {
            lemma_solutions_explain_reads(h, a, rank, k, i);
        }
    }
}

/// The assignment that a ranking gives: the acyclicity variable is true,
/// and the variable of an edge is true where the edge leads from a node to
/// a node of higher rank.
pub open spec fn switched(g: GnfModel, rank: Ranking) -> Assignment {
    |u: usize|
        u == 1 || exists|e: int|
            0 <= e < g.edges.len() && (#[trigger] g.edges[e]).variable == u as nat && rank(
                g.edges[e].from,
            ) < rank(g.edges[e].to)
}

/// The variable of an edge that leads forward is true.
pub proof fn lemma_switched(g: GnfModel, rank: Ranking, v: nat, from: nat, to: nat)
    requires
        carries(g, v, from, to),
        rank(from) < rank(to),
        v <= usize::MAX,
    ensures
        switched(g, rank)(v as usize),
        holds(Formula::Atom(positive(v)), switched(g, rank)),
{
    let e = choose|e: int|
        0 <= e < g.edges.len() && (#[trigger] g.edges[e]).variable == v && g.edges[e].from == from
            && g.edges[e].to == to;
    assert(g.edges[e].variable == (v as usize) as nat);
}

/// Where the edges of a document carry the variables from 2 on, in order,
/// every edge whose variable is true under the ranking's assignment leads
/// forward.
pub proof fn lemma_switched_edges_lead_forward(g: GnfModel, rank: Ranking)
    requires
        fits(g),
        g.n_variables == g.edges.len() + 1,
        forall|i: int| 0 <= i < g.edges.len() ==> (#[trigger] g.edges[i]).variable == i + 2,
    ensures
        forall|e: int|
            0 <= e < g.edges.len() && switched(g, rank)((#[trigger] g.edges[e]).variable as usize)
                ==> rank(g.edges[e].from) < rank(g.edges[e].to),
{
    let a = switched(g, rank);
    assert forall|e: int|
        0 <= e < g.edges.len() && a((#[trigger] g.edges[e]).variable as usize) implies rank(
        g.edges[e].from,
    ) < rank(g.edges[e].to) by {
        let u = g.edges[e].variable as usize;
        assert(u == e + 2);
        let e2 = choose|e2: int|
            0 <= e2 < g.edges.len() && (#[trigger] g.edges[e2]).variable == u as nat && rank(
                g.edges[e2].from,
            ) < rank(g.edges[e2].to);
        assert(e2 == e);
    }
}

/// The edges of `g` are the first edges of `done`, and `done` has handed
/// out at least the variables of `g`.
pub open spec fn part_of(g: GnfModel, done: GnfModel) -> bool {
    edges_kept(g, done) && g.n_variables <= done.n_variables
}

/// A document is part of its continuations.
pub proof fn lemma_continuation_part(g: GnfModel, g2: GnfModel, nodes: nat)
    requires
        continues(g, g2, nodes),
    ensures
        part_of(g, g2),
{
    lemma_continuation_keeps_edges(g, g2, nodes);
}

/// A part of a part is a part.
pub proof fn lemma_part_chain(a: GnfModel, b: GnfModel, c: GnfModel)
    requires
        part_of(a, b),
        part_of(b, c),
    ensures
        part_of(a, c),
{
    lemma_edges_kept_chain(a, b, c);
}

/// The variables of the edges from the read to the writes are known to the
/// whole document: each write of another transaction than `chosen` has its
/// edge, under a variable that can be counted.
pub open spec fn reaches(
    done: GnfModel,
    writes: Seq<Access>,
    before: Seq<Option<nat>>,
    read_tx: nat,
    chosen: nat,
) -> bool {
    forall|j: int|
        0 <= j < writes.len() && writes[j].tx != chosen ==> (#[trigger] before[j]) is Some
            && before[j]->Some_0 <= usize::MAX && carries(
            done,
            before[j]->Some_0,
            read_tx,
            writes[j].tx,
        )
}

/// Where the other writes come before the chosen one or after the read,
/// the conditions on them hold under the ranking's assignment.
pub proof fn lemma_other_writes_hold(
    done: GnfModel,
    rank: Ranking,
    g: GnfModel,
    writes: Seq<Access>,
    before: Seq<Option<nat>>,
    read_tx: nat,
    chosen: nat,
    key: Seq<u8>,
    n: nat,
    nodes: nat,
)
    requires
        n <= writes.len(),
        before.len() == writes.len(),
        chosen < nodes,
        within(writes, nodes),
        fits(done),
        part_of(other_writes(g, writes, before, chosen, key, n).0, done),
        reaches(done, writes, before, read_tx, chosen),
        others_apart(writes, read_tx, chosen, n, rank),
    ensures
        forall|p: int|
            0 <= p < other_writes(g, writes, before, chosen, key, n).1.len() ==> holds(
                #[trigger] other_writes(g, writes, before, chosen, key, n).1[p],
                switched(done, rank),
            ),
    decreases n,
{
    let a = switched(done, rank);
    if n > 0 {
        let prev = other_writes(g, writes, before, chosen, key, (n - 1) as nat);
        let now = other_writes(g, writes, before, chosen, key, n);
        lemma_other_writes(g, writes, before, chosen, key, (n - 1) as nat, n, nodes);
        lemma_continuation_part(prev.0, now.0, nodes);
        lemma_part_chain(prev.0, now.0, done);
        lemma_other_writes_hold(
            done,
            rank,
            g,
            writes,
            before,
            read_tx,
            chosen,
            key,
            (n - 1) as nat,
            nodes,
        );
        assert forall|p: int| 0 <= p < now.1.len() implies holds(#[trigger] now.1[p], a) by {
            if p < prev.1.len() {
                assert(now.1[p] == prev.1[p]);
            } else {
                let fresh = prev.0.n_variables + 1;
                let other = variable_at(before, n - 1);
                let pair = seq![Formula::Atom(positive(fresh)), Formula::Atom(positive(other))];
                assert(now.1[p] == Formula::Or(pair));
                lemma_holds_or(pair, a);
                assert(writes[n - 1].tx != chosen);
                if rank(writes[n - 1].tx) < rank(chosen) {
                    let e = prev.0.edges.len() as int;
                    assert(now.0.edges[e].variable == fresh);
                    assert(carries(now.0, fresh, writes[n - 1].tx, chosen));
                    lemma_carries_stays(now.0, done, fresh, writes[n - 1].tx, chosen);
                    lemma_switched(done, rank, fresh, writes[n - 1].tx, chosen);
                    assert(holds(pair[0], a));
                } else {
                    assert(rank(read_tx) < rank(writes[n - 1].tx));
                    assert(before[n - 1] is Some);
                    lemma_switched(done, rank, other, read_tx, writes[n - 1].tx);
                    assert(holds(pair[1], a));
                }
            }
        }
    }
}

/// Where the chosen write comes before the read, and the other writes
/// before the chosen one or after the read, the explanation holds under the
/// ranking's assignment.
pub proof fn lemma_explanation_holds(
    done: GnfModel,
    rank: Ranking,
    g: GnfModel,
    writes: Seq<Access>,
    before: Seq<Option<nat>>,
    read: Access,
    chosen: nat,
    key: Seq<u8>,
    nodes: nat,
)
    requires
        before.len() == writes.len(),
        chosen < nodes,
        read.tx < nodes,
        within(writes, nodes),
        fits(done),
        part_of(explanation(g, writes, before, read, chosen, key).0, done),
        reaches(done, writes, before, read.tx, chosen),
        rank(chosen) < rank(read.tx),
        others_apart(writes, read.tx, chosen, writes.len(), rank),
    ensures
        holds(explanation(g, writes, before, read, chosen, key).1, switched(done, rank)),
{
    let a = switched(done, rank);
    let first = with_edge(
        g,
        chosen,
        read.tx,
        candidate(writes, read) + label_on(
            "W-R dependency from T"@,
            chosen,
            " to T"@,
            read.tx,
            key,
        ),
    );
    let others = other_writes(first, writes, before, chosen, key, writes.len());
    let members = seq![Formula::Atom(positive(g.n_variables + 1))] + others.1;
    lemma_other_writes(first, writes, before, chosen, key, 0, writes.len(), nodes);
    lemma_continuation_part(first, others.0, nodes);
    lemma_part_chain(first, others.0, done);
    let e = g.edges.len() as int;
    assert(first.edges[e].variable == g.n_variables + 1);
    assert(carries(first, g.n_variables + 1, chosen, read.tx));
    lemma_carries_stays(first, done, g.n_variables + 1, chosen, read.tx);
    lemma_switched(done, rank, g.n_variables + 1, chosen, read.tx);
    lemma_other_writes_hold(
        done,
        rank,
        first,
        writes,
        before,
        read.tx,
        chosen,
        key,
        writes.len(),
        nodes,
    );
    lemma_holds_and(members, a);
    assert forall|p: int| 0 <= p < members.len() implies holds(#[trigger] members[p], a) by {
        if p > 0 {
            assert(members[p] == others.1[p - 1]);
        }
    }
}

/// A write of the value is among the matching ones.
pub proof fn lemma_matching_has(writes: Seq<Access>, value: Option<Seq<u8>>, n: nat, k: int)
    requires
        0 <= k < n <= writes.len(),
        writes[k].value == value,
    ensures
        exists|p: int|
            0 <= p < matching(writes, value, n).len() && #[trigger] matching(writes, value, n)[p]
                == writes[k].tx,
    decreases n,
{
    let now = matching(writes, value, n);
    if k == n - 1 {
        assert(now[now.len() - 1] == writes[k].tx);
    } else {
        let prev = matching(writes, value, (n - 1) as nat);
        lemma_matching_has(writes, value, (n - 1) as nat, k);
        let p = choose|p: int| 0 <= p < prev.len() && #[trigger] prev[p] == writes[k].tx;
        assert(now[p] == writes[k].tx);
    }
}

/// The explanations stay as they are while further ones are added: the
/// `p`-th is that of the `p`-th matching write.
pub proof fn lemma_explanations_stable(
    g: GnfModel,
    writes: Seq<Access>,
    before: Seq<Option<nat>>,
    read: Access,
    key: Seq<u8>,
    n: nat,
    p: int,
)
    requires
        0 <= p < n <= matching(writes, read.value, writes.len()).len(),
    ensures
        explanations(g, writes, before, read, key, n).1.len() == n,
        explanations(g, writes, before, read, key, n).1[p] == explanation(
            explanations(g, writes, before, read, key, p as nat).0,
            writes,
            before,
            read,
            matching(writes, read.value, writes.len())[p],
            key,
        ).1,
    decreases n,
{
    if p < n - 1 {
        lemma_explanations_stable(g, writes, before, read, key, (n - 1) as nat, p);
    } else if n > 1 {
        lemma_explanations_stable(g, writes, before, read, key, (n - 1) as nat, p - 1);
    }
}

/// Where the read is explained under the ranking, its choice holds under
/// the ranking's assignment.
pub proof fn lemma_choice_holds(
    done: GnfModel,
    rank: Ranking,
    g: GnfModel,
    writes: Seq<Access>,
    read: Access,
    key: Seq<u8>,
    nodes: nat,
)
    requires
        read.tx < nodes,
        within(writes, nodes),
        fits(done),
        part_of(choice(g, writes, read, key).0, done),
        explained(writes, read, rank),
    ensures
        holds(choice(g, writes, read, key).1, switched(done, rank)),
{
    let a = switched(done, rank);
    let before = read_before_writes(g, writes, read, key, writes.len());
    let ms = matching(writes, read.value, writes.len());
    let found = explanations(before.0, writes, before.1, read, key, ms.len());
    let c = choice(g, writes, read, key);
    lemma_choice(g, writes, read, key, nodes);
    lemma_read_before_writes(g, writes, read, key, 0, writes.len(), nodes);
    lemma_before_carried(g, writes, read, key, writes.len(), nodes);
    lemma_continuation_part(before.0, c.0, nodes);
    lemma_part_chain(before.0, c.0, done);
    // the edges from the read to the writes, as the whole document has them
    assert forall|j: int| 0 <= j < writes.len() implies match #[trigger] before.1[j] {
        Some(v) => v <= usize::MAX && carries(done, v, read.tx, writes[j].tx),
        None => spared(writes, read, j),
    } by {
        match before.1[j] {
            Some(v) => {
                lemma_carries_stays(before.0, done, v, read.tx, writes[j].tx);
            },
            None => {},
        }
    }
    let members = if read.value is None {
        found.1.push(before_all(before.1))
    } else {
        found.1
    };
    assert(c.1 == Formula::Or(members));
    lemma_holds_or(members, a);
    if exists|k: int|
        0 <= k < writes.len() && (#[trigger] writes[k]).value == read.value && rank(writes[k].tx)
            < rank(read.tx) && others_apart(writes, read.tx, writes[k].tx, writes.len(), rank) {
        let k = choose|k: int|
            0 <= k < writes.len() && (#[trigger] writes[k]).value == read.value && rank(
                writes[k].tx,
            ) < rank(read.tx) && others_apart(writes, read.tx, writes[k].tx, writes.len(), rank);
        lemma_matching_has(writes, read.value, writes.len(), k);
        let p = choose|p: int| 0 <= p < ms.len() && #[trigger] ms[p] == writes[k].tx;
        let chosen = ms[p];
        let stage = explanations(before.0, writes, before.1, read, key, p as nat);
        let next = explanations(before.0, writes, before.1, read, key, (p + 1) as nat);
        lemma_explanations_stable(before.0, writes, before.1, read, key, ms.len(), p);
        lemma_explanations(before.0, writes, before.1, read, key, (p + 1) as nat, ms.len(), nodes);
        lemma_continuation_part(next.0, found.0, nodes);
        lemma_part_chain(next.0, found.0, done);
        lemma_matching_within(writes, read.value, writes.len(), nodes);
        assert(reaches(done, writes, before.1, read.tx, chosen)) by {
            assert forall|j: int|
                0 <= j < writes.len() && writes[j].tx != chosen implies (#[trigger] before.1[j])
                is Some && before.1[j]->Some_0 <= usize::MAX && carries(
                done,
                before.1[j]->Some_0,
                read.tx,
                writes[j].tx,
            ) by {
                if before.1[j] is None {
                    assert(spared(writes, read, j));
                }
            }
        }
        lemma_explanation_holds(done, rank, stage.0, writes, before.1, read, chosen, key, nodes);
        assert(members[p] == found.1[p]);
        assert(holds(members[p], a));
    } else {
        let all = children(before_all(before.1));
        lemma_holds_and(all, a);
        assert forall|j: int| 0 <= j < all.len() implies holds(#[trigger] all[j], a) by {
            assert(!spared(writes, read, j));
            assert(before.1[j] is Some);
            let v = variable_at(before.1, j);
            assert(rank(read.tx) < rank(writes[j].tx));
            lemma_switched(done, rank, v, read.tx, writes[j].tx);
        }
        assert(members[members.len() - 1] == before_all(before.1));
        assert(holds(members[members.len() - 1], a));
    }
}

/// Every clause of the document holds under the assignment.
pub open spec fn settled(g: GnfModel, a: Assignment) -> bool {
    forall|i: int| 0 <= i < g.groups.len() ==> clauses_hold((#[trigger] g.groups[i]).clauses, a)
}

/// An asserted edge that leads forward keeps the document settled.
pub proof fn lemma_asserted_edge_settled(
    done: GnfModel,
    rank: Ranking,
    g: GnfModel,
    from: nat,
    to: nat,
    clause_comment: Seq<char>,
    edge_comment: Seq<char>,
)
    requires
        fits(done),
        settled(g, switched(done, rank)),
        part_of(with_asserted_edge(g, from, to, clause_comment, edge_comment), done),
        rank(from) < rank(to),
    ensures
        settled(
            with_asserted_edge(g, from, to, clause_comment, edge_comment),
            switched(done, rank),
        ),
{
    let a = switched(done, rank);
    let g2 = with_asserted_edge(g, from, to, clause_comment, edge_comment);
    let v = g.n_variables + 1;
    let e = g.edges.len() as int;
    assert(g2.edges[e].variable == v);
    assert(carries(g2, v, from, to));
    lemma_carries_stays(g2, done, v, from, to);
    lemma_switched(done, rank, v, from, to);
    assert forall|i: int| 0 <= i < g2.groups.len() implies clauses_hold(
        (#[trigger] g2.groups[i]).clauses,
        a,
    ) by {
        if i < g.groups.len() {
            assert(g2.groups[i] == g.groups[i]);
        } else {
            let clauses = g2.groups[i].clauses;
            assert(clauses == seq![unit(v)]);
            assert forall|c: int| 0 <= c < clauses.len() implies clause_holds(
                #[trigger] clauses[c],
                a,
            ) by {
                assert(clauses[c] == unit(v));
                assert(unit(v)[0] == positive(v));
                assert(literal_holds(unit(v)[0], a));
            }
        }
    }
}

/// The edges in real time from one transaction keep the document settled
/// where the ranking respects real time.
pub proof fn lemma_realtime_row_settled(
    done: GnfModel,
    rank: Ranking,
    h: Seq<TransactionModel>,
    g: GnfModel,
    i: int,
    n: nat,
)
    requires
        0 <= i < h.len(),
        n <= h.len(),
        fits(done),
        settled(g, switched(done, rank)),
        part_of(realtime_row(h, g, i, n), done),
        forall|j: int| 0 <= j < h.len() && #[trigger] before_in_time(h, i, j) ==> rank(i as nat)
            < rank(j as nat),
    ensures
        settled(realtime_row(h, g, i, n), switched(done, rank)),
    decreases n,
{
    if n > 0 {
        let prev = realtime_row(h, g, i, (n - 1) as nat);
        let now = realtime_row(h, g, i, n);
        lemma_realtime_row(h, g, i, (n - 1) as nat, n);
        lemma_continuation_part(prev, now, h.len());
        lemma_part_chain(prev, now, done);
        lemma_realtime_row_settled(done, rank, h, g, i, (n - 1) as nat);
        if before_in_time(h, i, n - 1) {
            lemma_asserted_edge_settled(
                done,
                rank,
                prev,
                i as nat,
                (n - 1) as nat,
                label("Real-time edge from T"@, i as nat, " to T"@, (n - 1) as nat),
                label("Real time ordering of T"@, i as nat, " and T"@, (n - 1) as nat),
            );
        }
    }
}

/// The edges in real time keep the document settled where the ranking
/// respects real time.
pub proof fn lemma_realtime_settled(
    done: GnfModel,
    rank: Ranking,
    h: Seq<TransactionModel>,
    g: GnfModel,
    m: nat,
)
    requires
        m <= h.len(),
        fits(done),
        settled(g, switched(done, rank)),
        part_of(realtime(h, g, m), done),
        forall|i: int, j: int|
            0 <= i < h.len() && 0 <= j < h.len() && #[trigger] before_in_time(h, i, j) ==> rank(
                i as nat,
            ) < rank(j as nat),
    ensures
        settled(realtime(h, g, m), switched(done, rank)),
    decreases m,
{
    if m > 0 {
        let prev = realtime(h, g, (m - 1) as nat);
        lemma_realtime(h, g, (m - 1) as nat, m);
        lemma_continuation_part(prev, realtime(h, g, m), h.len());
        lemma_part_chain(prev, realtime(h, g, m), done);
        lemma_realtime_settled(done, rank, h, g, (m - 1) as nat);
        assert forall|j: int| 0 <= j < h.len() && #[trigger] before_in_time(
            h,
            m - 1,
            j,
        ) implies rank((m - 1) as nat) < rank(j as nat) by {}
        lemma_realtime_row_settled(done, rank, h, prev, m - 1, h.len());
    }
}

/// What the reads say beside a single write keeps the document settled
/// where the ranking puts each read on the right side of the write.
pub proof fn lemma_single_reads_settled(
    done: GnfModel,
    rank: Ranking,
    g: GnfModel,
    write: Access,
    reads: Seq<Access>,
    key: Seq<u8>,
    n: nat,
    nodes: nat,
)
    requires
        n <= reads.len(),
        write.tx < nodes,
        within(reads, nodes),
        fits(done),
        settled(g, switched(done, rank)),
        part_of(encode_single_reads(g, write, reads, key, n), done),
        forall|i: int|
            0 <= i < n && write.value is Some ==> (if (#[trigger] reads[i]).value is None {
                rank(reads[i].tx) < rank(write.tx)
            } else {
                rank(write.tx) < rank(reads[i].tx)
            }),
    ensures
        settled(encode_single_reads(g, write, reads, key, n), switched(done, rank)),
    decreases n,
{
    if n > 0 {
        let prev = encode_single_reads(g, write, reads, key, (n - 1) as nat);
        let now = encode_single_reads(g, write, reads, key, n);
        let read = reads[n - 1];
        lemma_encode_single_reads(g, write, reads, key, (n - 1) as nat, n, nodes);
        lemma_continuation_part(prev, now, nodes);
        lemma_part_chain(prev, now, done);
        lemma_single_reads_settled(done, rank, g, write, reads, key, (n - 1) as nat, nodes);
        assert(now == encode_single(prev, write, read, key));
        if now != prev {
            match (write.value, read.value) {
                (Some(_), None) => {
                    lemma_asserted_edge_settled(
                        done,
                        rank,
                        prev,
                        read.tx,
                        write.tx,
                        label_on(
                            "R-W anti-dependency edge from T"@,
                            read.tx,
                            " to T"@,
                            write.tx,
                            key,
                        ),
                        label_on(
                            "R-W anti-dependeny from T"@,
                            read.tx,
                            " to T"@,
                            write.tx,
                            key,
                        ),
                    );
                },
                _ => {
                    lemma_asserted_edge_settled(
                        done,
                        rank,
                        prev,
                        write.tx,
                        read.tx,
                        label_on(
                            "W-R dependency edge from T"@,
                            write.tx,
                            " to T"@,
                            read.tx,
                            key,
                        ),
                        label_on(
                            "W-R dependency from T"@,
                            write.tx,
                            " to T"@,
                            read.tx,
                            key,
                        ),
                    );
                },
            }
        }
    }
}

/// What the reads say beside several writes keeps the document settled
/// where the ranking explains each read.
pub proof fn lemma_choices_settled(
    done: GnfModel,
    rank: Ranking,
    g: GnfModel,
    writes: Seq<Access>,
    reads: Seq<Access>,
    key: Seq<u8>,
    n: nat,
    nodes: nat,
)
    requires
        n <= reads.len(),
        within(reads, nodes),
        within(writes, nodes),
        fits(done),
        settled(g, switched(done, rank)),
        part_of(encode_choices(g, writes, reads, key, n), done),
        forall|i: int| 0 <= i < n ==> explained(writes, #[trigger] reads[i], rank),
    ensures
        settled(encode_choices(g, writes, reads, key, n), switched(done, rank)),
    decreases n,
{
    let a = switched(done, rank);
    if n > 0 {
        let prev = encode_choices(g, writes, reads, key, (n - 1) as nat);
        let now = encode_choices(g, writes, reads, key, n);
        let read = reads[n - 1];
        lemma_encode_choices(g, writes, reads, key, (n - 1) as nat, n, nodes);
        lemma_continuation_part(prev, now, nodes);
        lemma_part_chain(prev, now, done);
        lemma_choices_settled(done, rank, g, writes, reads, key, (n - 1) as nat, nodes);
        let c = choice(prev, writes, read, key);
        assert(part_of(c.0, now));
        lemma_part_chain(c.0, now, done);
        assert(explained(writes, reads[n - 1], rank));
        lemma_choice_holds(done, rank, prev, writes, read, key, nodes);
        lemma_cnf_equivalent(c.1);
        lemma_choice(prev, writes, read, key, nodes);
        assert forall|i: int| 0 <= i < now.groups.len() implies clauses_hold(
            (#[trigger] now.groups[i]).clauses,
            a,
        ) by {
            if i < prev.groups.len() {
                assert(now.groups[i] == prev.groups[i]);
            } else {
                assert(c.0.groups.len() == prev.groups.len()) by {
                    lemma_choice_adds_no_group(prev, writes, read, key);
                }
                assert(now.groups[i].clauses == cnf(c.1));
            }
        }
    }
}

/// The edges of a read's choice come without clauses: the clauses of the
/// choice are the only group that the read adds.
pub proof fn lemma_choice_adds_no_group(
    g: GnfModel,
    writes: Seq<Access>,
    read: Access,
    key: Seq<u8>,
)
    ensures
        choice(g, writes, read, key).0.groups == g.groups,
{
    let before = read_before_writes(g, writes, read, key, writes.len());
    let ms = matching(writes, read.value, writes.len());
    lemma_before_adds_no_group(g, writes, read, key, writes.len());
    lemma_explanations_add_no_group(before.0, writes, before.1, read, key, ms.len());
}

/// The edges from a read to the writes come without clauses.
pub proof fn lemma_before_adds_no_group(
    g: GnfModel,
    writes: Seq<Access>,
    read: Access,
    key: Seq<u8>,
    n: nat,
)
    ensures
        read_before_writes(g, writes, read, key, n).0.groups == g.groups,
    decreases n,
{
    if n > 0 && n <= writes.len() {
        lemma_before_adds_no_group(g, writes, read, key, (n - 1) as nat);
    }
}

/// The edges from the other writes come without clauses.
pub proof fn lemma_other_writes_add_no_group(
    g: GnfModel,
    writes: Seq<Access>,
    before: Seq<Option<nat>>,
    chosen: nat,
    key: Seq<u8>,
    n: nat,
)
    ensures
        other_writes(g, writes, before, chosen, key, n).0.groups == g.groups,
    decreases n,
{
    if n > 0 && n <= writes.len() {
        lemma_other_writes_add_no_group(g, writes, before, chosen, key, (n - 1) as nat);
    }
}

/// The edges of the explanations come without clauses.
pub proof fn lemma_explanations_add_no_group(
    g: GnfModel,
    writes: Seq<Access>,
    before: Seq<Option<nat>>,
    read: Access,
    key: Seq<u8>,
    n: nat,
)
    ensures
        explanations(g, writes, before, read, key, n).0.groups == g.groups,
    decreases n,
{
    let ms = matching(writes, read.value, writes.len());
    if n > 0 && n <= ms.len() {
        lemma_explanations_add_no_group(g, writes, before, read, key, (n - 1) as nat);
        let prev = explanations(g, writes, before, read, key, (n - 1) as nat);
        let first = with_edge(
            prev.0,
            ms[n - 1],
            read.tx,
            candidate(writes, read) + label_on(
                "W-R dependency from T"@,
                ms[n - 1],
                " to T"@,
                read.tx,
                key,
            ),
        );
        lemma_other_writes_add_no_group(first, writes, before, ms[n - 1], key, writes.len());
    }
}

/// What the reads of the first `n` keys say keeps the document settled
/// where the ranking explains every read.
pub proof fn lemma_keys_settled(
    done: GnfModel,
    rank: Ranking,
    h: Seq<TransactionModel>,
    g: GnfModel,
    n: nat,
)
    requires
        n <= all_keys(specs_of(h)).len(),
        fits(done),
        settled(g, switched(done, rank)),
        part_of(encode_keys(h, g, all_keys(specs_of(h)), n), done),
        forall|k: int, i: int|
            0 <= k < all_keys(specs_of(h)).len() && 0 <= i < reads_of(
                h,
                all_keys(specs_of(h))[k],
                h.len(),
            ).len() ==> #[trigger] read_respected(h, rank, k, i),
    ensures
        settled(encode_keys(h, g, all_keys(specs_of(h)), n), switched(done, rank)),
    decreases n,
{
    let keys = all_keys(specs_of(h));
    if n > 0 {
        let prev = encode_keys(h, g, keys, (n - 1) as nat);
        let now = encode_keys(h, g, keys, n);
        let key = keys[n - 1];
        let writes = writes_of(h, key, h.len());
        let reads = reads_of(h, key, h.len());
        lemma_encode_keys(h, g, keys, (n - 1) as nat, n);
        lemma_continuation_part(prev, now, h.len());
        lemma_part_chain(prev, now, done);
        lemma_keys_settled(done, rank, h, g, (n - 1) as nat);
        lemma_accesses_within(h, key, h.len());
        assert(now == encode_key(prev, writes, reads, key));
        if writes.len() == 1 {
            assert forall|i: int|
                0 <= i < reads.len() && writes[0].value is Some implies (if (
                #[trigger] reads[i]).value is None {
                rank(reads[i].tx) < rank(writes[0].tx)
            } else {
                rank(writes[0].tx) < rank(reads[i].tx)
            }) by {
                assert(read_respected(h, rank, n - 1, i));
            }
            lemma_single_reads_settled(done, rank, prev, writes[0], reads, key, reads.len(), h.len());
        } else if writes.len() > 1 {
            assert forall|i: int| 0 <= i < reads.len() implies explained(
                writes,
                #[trigger] reads[i],
                rank,
            ) by {
                assert(read_respected(h, rank, n - 1, i));
            }
            lemma_choices_settled(done, rank, prev, writes, reads, key, reads.len(), h.len());
        }
    }
}

/// An order of the transactions that respects real time and explains every
/// read solves the encoding of the history, with the edges switched on that
/// lead forward in the order.
pub proof fn lemma_order_solves(h: Seq<TransactionModel>, rank: Ranking)
    requires
        respects(h, rank),
        fits(encoding(h)),
    ensures
        solves(encoding(h), switched(encoding(h), rank), rank),
{
    let done = encoding(h);
    let a = switched(done, rank);
    let start = with_nodes(initial(), h.len());
    let keys = all_keys(specs_of(h));
    lemma_encoding(h);
    lemma_switched_edges_lead_forward(done, rank);
    // the clause that asserts the acyclicity variable
    assert(settled(start, a)) by {
        assert forall|i: int| 0 <= i < start.groups.len() implies clauses_hold(
            (#[trigger] start.groups[i]).clauses,
            a,
        ) by {
            let clauses = start.groups[i].clauses;
            assert forall|c: int| 0 <= c < clauses.len() implies clause_holds(
                #[trigger] clauses[c],
                a,
            ) by {
                assert(clauses[c] == unit(1));
                assert(unit(1)[0] == positive(1));
                assert(literal_holds(unit(1)[0], a));
            }
        }
    }
    lemma_encode_keys(h, timed(h), keys, 0, keys.len());
    lemma_continuation_part(timed(h), done, h.len());
    lemma_realtime_settled(done, rank, h, start, h.len());
    assert(part_of(done, done));
    lemma_keys_settled(done, rank, h, timed(h), keys.len());
}

/// A history has an order that respects real time and explains every read
/// exactly when its encoding has a solution.
pub proof fn lemma_encoding_is_exact(h: Seq<TransactionModel>)
    requires
        fits(encoding(h)),
        !value_from_nowhere(h),
    ensures
        (exists|rank: Ranking| respects(h, rank)) <==> (exists|a: Assignment, rank: Ranking|
            solves(encoding(h), a, rank)),
{
    if exists|rank: Ranking| respects(h, rank) {
        let rank = choose|rank: Ranking| respects(h, rank);
        lemma_order_solves(h, rank);
        assert(solves(encoding(h), switched(encoding(h), rank), rank));
    }
    if exists|a: Assignment, rank: Ranking| solves(encoding(h), a, rank) {
        let (a, rank) = choose|a: Assignment, rank: Ranking| solves(encoding(h), a, rank);
        lemma_solutions_respect(h, a, rank);
    }
}

} // verus!
