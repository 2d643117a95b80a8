//! What the encoding of a history is: the nodes, edges and clauses that
//! stand for the order in real time and for what each read can have seen.

use crate::formula::{Formula, Literal, Variable};
use crate::gnf::{EdgeModel, GnfModel, GroupModel};
use crate::history::{OperationModel, StatusModel, TransactionModel};
use crate::keys::all_keys;
use crate::normal::cnf;
use crate::text::{bytes_text, decimal};
use vstd::prelude::*;

verus! {

/// A read or a write of one key: the transaction that made it and the value
/// read or written, if any. A removal writes no value.
pub struct Access {
    pub tx: nat,
    pub value: Option<Seq<u8>>,
}

/// The operations of each transaction of a history.
pub open spec fn specs_of(h: Seq<TransactionModel>) -> Seq<Seq<OperationModel>> {
    Seq::new(h.len(), |i: int| h[i].ops)
}

/// The reads of `key` among the first `n` operations of transaction `t`. A
/// transaction that did not run to its end has none.
pub open spec fn tx_reads(tx: TransactionModel, t: nat, key: Seq<u8>, n: nat) -> Seq<Access>
    decreases n,
{
    if n == 0 || n > tx.ops.len() {
        Seq::empty()
    } else {
        let rest = tx_reads(tx, t, key, (n - 1) as nat);
        match (tx.ops[n - 1], tx.status) {
            (OperationModel::Get { key: k }, StatusModel::Completed { get_results, .. }) => if k
                == key {
                rest.push(Access { tx: t, value: get_results[n - 1] })
            } else {
                rest
            },
            _ => rest,
        }
    }
}

/// The writes of `key` among the first `n` operations of transaction `t`,
/// however far the transaction got.
pub open spec fn tx_writes(tx: TransactionModel, t: nat, key: Seq<u8>, n: nat) -> Seq<Access>
    decreases n,
{
    if n == 0 || n > tx.ops.len() {
        Seq::empty()
    } else {
        let rest = tx_writes(tx, t, key, (n - 1) as nat);
        match tx.ops[n - 1] {
            OperationModel::Insert { key: k, value } => if k == key {
                rest.push(Access { tx: t, value: Some(value) })
            } else {
                rest
            },
            OperationModel::Remove { key: k } => if k == key {
                rest.push(Access { tx: t, value: None })
            } else {
                rest
            },
            OperationModel::Get { .. } => rest,
        }
    }
}

/// The reads of `key` in the first `m` transactions, in order.
pub open spec fn reads_of(h: Seq<TransactionModel>, key: Seq<u8>, m: nat) -> Seq<Access>
    decreases m,
{
    if m == 0 || m > h.len() {
        Seq::empty()
    } else {
        reads_of(h, key, (m - 1) as nat) + tx_reads(
            h[m - 1],
            (m - 1) as nat,
            key,
            h[m - 1].ops.len(),
        )
    }
}

/// The writes of `key` in the first `m` transactions, in order.
pub open spec fn writes_of(h: Seq<TransactionModel>, key: Seq<u8>, m: nat) -> Seq<Access>
    decreases m,
{
    if m == 0 || m > h.len() {
        Seq::empty()
    } else {
        writes_of(h, key, (m - 1) as nat) + tx_writes(
            h[m - 1],
            (m - 1) as nat,
            key,
            h[m - 1].ops.len(),
        )
    }
}

/// A read of a value that none of the writes wrote.
pub open spec fn unexplained(read: Access, writes: Seq<Access>) -> bool {
    read.value is Some && forall|j: int| 0 <= j < writes.len() ==> (#[trigger] writes[j]).value
        != read.value
}

/// Some read of `key` saw a value that no transaction wrote under it.
pub open spec fn key_is_impossible(h: Seq<TransactionModel>, key: Seq<u8>) -> bool {
    exists|i: int|
        0 <= i < reads_of(h, key, h.len()).len() && unexplained(
            #[trigger] reads_of(h, key, h.len())[i],
            writes_of(h, key, h.len()),
        )
}

/// Some read of the history saw a value that no transaction wrote under its
/// key: no order of the transactions can explain the history.
pub open spec fn value_from_nowhere(h: Seq<TransactionModel>) -> bool {
    exists|k: int|
        0 <= k < all_keys(specs_of(h)).len() && key_is_impossible(
            h,
            #[trigger] all_keys(specs_of(h))[k],
        )
}

/// The text `<before><a><between><b>`, with the numbers in decimal.
pub open spec fn label(before: Seq<char>, a: nat, between: Seq<char>, b: nat) -> Seq<char> {
    before + decimal(a) + between + decimal(b)
}

/// The text `<before><a><between><b> on <key>`.
pub open spec fn label_on(before: Seq<char>, a: nat, between: Seq<char>, b: nat, key: Seq<u8>) -> Seq<
    char,
> {
    label(before, a, between, b) + " on "@ + bytes_text(key)
}

/// The positive literal of variable `v`.
pub open spec fn positive(v: nat) -> Literal {
    Literal::Variable(Variable(v as usize))
}

/// The clause that asserts variable `v`.
pub open spec fn unit(v: nat) -> Seq<Literal> {
    seq![positive(v)]
}

/// `g` with one more group of clauses.
pub open spec fn with_group(g: GnfModel, comment: Seq<char>, clauses: Seq<Seq<Literal>>) -> GnfModel {
    GnfModel { groups: g.groups.push(GroupModel { comment, clauses }), ..g }
}

/// `g` with a new variable and an edge that the variable switches.
pub open spec fn with_edge(g: GnfModel, from: nat, to: nat, comment: Seq<char>) -> GnfModel {
    GnfModel {
        n_variables: g.n_variables + 1,
        edges: g.edges.push(EdgeModel { from, to, variable: g.n_variables + 1, comment }),
        ..g
    }
}

/// `g` with a new variable, the clause that asserts it, and an edge that it
/// switches: an edge that is there without condition.
pub open spec fn with_asserted_edge(
    g: GnfModel,
    from: nat,
    to: nat,
    clause_comment: Seq<char>,
    edge_comment: Seq<char>,
) -> GnfModel {
    GnfModel {
        n_variables: g.n_variables + 1,
        groups: g.groups.push(
            GroupModel { comment: clause_comment, clauses: seq![unit(g.n_variables + 1)] },
        ),
        edges: g.edges.push(
            EdgeModel { from, to, variable: g.n_variables + 1, comment: edge_comment },
        ),
        ..g
    }
}

/// The empty document with the clause that asserts the acyclicity variable.
pub open spec fn initial() -> GnfModel {
    GnfModel {
        n_variables: 1,
        groups: seq![GroupModel { comment: "Acyclic property"@, clauses: seq![unit(1)] }],
        n_nodes: 0,
        edges: Seq::empty(),
        acyclic_variable: 1,
    }
}

/// `g` with `n` more nodes.
pub open spec fn with_nodes(g: GnfModel, n: nat) -> GnfModel {
    GnfModel { n_nodes: g.n_nodes + n, ..g }
}

/// Transaction `i` ended before transaction `j` started, both having run to
/// their end.
pub open spec fn before_in_time(h: Seq<TransactionModel>, i: int, j: int) -> bool {
    match (h[i].status, h[j].status) {
        (
            StatusModel::Completed { end, .. },
            StatusModel::Completed { start, .. },
        ) => start > end,
        _ => false,
    }
}

/// `g` with the edges in real time from transaction `i` to those of the
/// first `n` transactions that started after it ended.
pub open spec fn realtime_row(h: Seq<TransactionModel>, g: GnfModel, i: int, n: nat) -> GnfModel
    decreases n,
{
    if n == 0 || n > h.len() {
        g
    } else {
        let prev = realtime_row(h, g, i, (n - 1) as nat);
        if before_in_time(h, i, n - 1) {
            with_asserted_edge(
                prev,
                i as nat,
                (n - 1) as nat,
                label("Real-time edge from T"@, i as nat, " to T"@, (n - 1) as nat),
                label("Real time ordering of T"@, i as nat, " and T"@, (n - 1) as nat),
            )
        } else {
            prev
        }
    }
}

/// `g` with the edges in real time that leave the first `m` transactions.
pub open spec fn realtime(h: Seq<TransactionModel>, g: GnfModel, m: nat) -> GnfModel
    decreases m,
{
    if m == 0 || m > h.len() {
        g
    } else {
        realtime_row(h, realtime(h, g, (m - 1) as nat), m - 1, h.len())
    }
}

/// `g` with what one read says where its key has a single write. A read of
/// nothing comes before a write of a value; a read of the value written
/// comes after the write; a read of nothing beside a removal says nothing.
pub open spec fn encode_single(g: GnfModel, write: Access, read: Access, key: Seq<u8>) -> GnfModel {
    match (write.value, read.value) {
        (Some(_), None) => with_asserted_edge(
            g,
            read.tx,
            write.tx,
            label_on("R-W anti-dependency edge from T"@, read.tx, " to T"@, write.tx, key),
            label_on("R-W anti-dependeny from T"@, read.tx, " to T"@, write.tx, key),
        ),
        (Some(w), Some(r)) => if w == r {
            with_asserted_edge(
                g,
                write.tx,
                read.tx,
                label_on("W-R dependency edge from T"@, write.tx, " to T"@, read.tx, key),
                label_on("W-R dependency from T"@, write.tx, " to T"@, read.tx, key),
            )
        } else {
            g
        },
        _ => g,
    }
}

/// `g` with what the first `n` reads say where their key has the single
/// write `write`.
pub open spec fn encode_single_reads(
    g: GnfModel,
    write: Access,
    reads: Seq<Access>,
    key: Seq<u8>,
    n: nat,
) -> GnfModel
    decreases n,
{
    if n == 0 || n > reads.len() {
        g
    } else {
        encode_single(
            encode_single_reads(g, write, reads, key, (n - 1) as nat),
            write,
            reads[n - 1],
            key,
        )
    }
}

/// The transactions of those of the first `n` writes that wrote `value`.
pub open spec fn matching(writes: Seq<Access>, value: Option<Seq<u8>>, n: nat) -> Seq<nat>
    decreases n,
{
    if n == 0 || n > writes.len() {
        Seq::empty()
    } else {
        let rest = matching(writes, value, (n - 1) as nat);
        if writes[n - 1].value == value {
            rest.push(writes[n - 1].tx)
        } else {
            rest
        }
    }
}

/// Whether the read has a single explanation: one write of its value, or
/// none and a read of nothing.
pub open spec fn single_explanation(writes: Seq<Access>, read: Access) -> bool {
    matching(writes, read.value, writes.len()).len() + (if read.value is None {
        1nat
    } else {
        0nat
    }) == 1
}

/// Whether the read needs no edge to write `j`: the write's transaction is
/// the only one that wrote the value read.
pub open spec fn spared(writes: Seq<Access>, read: Access, j: int) -> bool {
    let ms = matching(writes, read.value, writes.len());
    ms.len() == 1 && writes[j].tx == ms[0] && read.value is Some
}

/// "Candidate " before the comment of an edge that is subject to a choice.
pub open spec fn candidate(writes: Seq<Access>, read: Access) -> Seq<char> {
    if single_explanation(writes, read) {
        ""@
    } else {
        "Candidate "@
    }
}

/// `g` with the edges from the read to the first `n` writes, and the
/// variable of each edge; a spared write gets none.
pub open spec fn read_before_writes(
    g: GnfModel,
    writes: Seq<Access>,
    read: Access,
    key: Seq<u8>,
    n: nat,
) -> (GnfModel, Seq<Option<nat>>)
    decreases n,
{
    if n == 0 || n > writes.len() {
        (g, Seq::empty())
    } else {
        let prev = read_before_writes(g, writes, read, key, (n - 1) as nat);
        if spared(writes, read, n - 1) {
            (prev.0, prev.1.push(None))
        } else {
            (
                with_edge(
                    prev.0,
                    read.tx,
                    writes[n - 1].tx,
                    candidate(writes, read) + label_on(
                        "R-W anti-dependency from T"@,
                        read.tx,
                        " to T"@,
                        writes[n - 1].tx,
                        key,
                    ),
                ),
                prev.1.push(Some(prev.0.n_variables + 1)),
            )
        }
    }
}

/// The variable in a place of the list, or 0 where the place is empty.
pub open spec fn variable_at(vars: Seq<Option<nat>>, j: int) -> nat {
    match vars[j] {
        Some(v) => v,
        None => 0,
    }
}

/// For the write of transaction `chosen` as the source of the read: `g` with
/// an edge to `chosen` from each other transaction among the first `n`
/// writes, and for each the condition that it was overwritten by `chosen`
/// or came after the read.
pub open spec fn other_writes(
    g: GnfModel,
    writes: Seq<Access>,
    before: Seq<Option<nat>>,
    chosen: nat,
    key: Seq<u8>,
    n: nat,
) -> (GnfModel, Seq<Formula>)
    decreases n,
{
    if n == 0 || n > writes.len() {
        (g, Seq::empty())
    } else {
        let prev = other_writes(g, writes, before, chosen, key, (n - 1) as nat);
        if writes[n - 1].tx == chosen {
            prev
        } else {
            (
                with_edge(
                    prev.0,
                    writes[n - 1].tx,
                    chosen,
                    label_on(
                        "Candidate W-W anti-dependency from T"@,
                        writes[n - 1].tx,
                        " to T"@,
                        chosen,
                        key,
                    ),
                ),
                prev.1.push(
                    Formula::Or(
                        seq![
                            Formula::Atom(positive(prev.0.n_variables + 1)),
                            Formula::Atom(positive(variable_at(before, n - 1))),
                        ],
                    ),
                ),
            )
        }
    }
}

/// For the write of transaction `chosen` as the source of the read: `g` with
/// the edge from `chosen` to the read and the edges of `other_writes`, and
/// the conjunction of the first edge's variable and their conditions.
pub open spec fn explanation(
    g: GnfModel,
    writes: Seq<Access>,
    before: Seq<Option<nat>>,
    read: Access,
    chosen: nat,
    key: Seq<u8>,
) -> (GnfModel, Formula) {
    let first = with_edge(
        g,
        chosen,
        read.tx,
        candidate(writes, read) + label_on(
            "W-R dependency from T"@,
            chosen,
            " to T"@,
            read.tx,
            key,
        ),
    );
    let others = other_writes(first, writes, before, chosen, key, writes.len());
    (others.0, Formula::And(seq![Formula::Atom(positive(g.n_variables + 1))] + others.1))
}

/// `g` with the edges of the first `n` explanations of the read, one for
/// each write of its value, and their conjunctions.
pub open spec fn explanations(
    g: GnfModel,
    writes: Seq<Access>,
    before: Seq<Option<nat>>,
    read: Access,
    key: Seq<u8>,
    n: nat,
) -> (GnfModel, Seq<Formula>)
    decreases n,
{
    let ms = matching(writes, read.value, writes.len());
    if n == 0 || n > ms.len() {
        (g, Seq::empty())
    } else {
        let prev = explanations(g, writes, before, read, key, (n - 1) as nat);
        let next = explanation(prev.0, writes, before, read, ms[n - 1], key);
        (next.0, prev.1.push(next.1))
    }
}

/// The read saw the state before any write: it comes before every write.
pub open spec fn before_all(before: Seq<Option<nat>>) -> Formula {
    Formula::And(Seq::new(before.len(), |j: int| Formula::Atom(positive(variable_at(before, j)))))
}

/// The first `n` writes as text: `T` and the transaction's number for each,
/// separated by a comma and a space.
pub open spec fn writes_text(writes: Seq<Access>, n: nat) -> Seq<char>
    decreases n,
{
    if n == 0 || n > writes.len() {
        Seq::empty()
    } else if n == 1 {
        "T"@ + decimal(writes[0].tx)
    } else {
        writes_text(writes, (n - 1) as nat) + ", "@ + "T"@ + decimal(writes[n - 1].tx)
    }
}

/// The comment of the clauses that order the writes of a key and a read.
pub open spec fn ordering_comment(writes: Seq<Access>, read: Access, key: Seq<u8>) -> Seq<char> {
    "Ordering of writes ["@ + writes_text(writes, writes.len()) + "] and read T"@ + decimal(
        read.tx,
    ) + " on "@ + bytes_text(key)
}

/// The choice that a read leaves among several writes of its key: one of the
/// explanations holds, or, for a read of nothing, the read came before all
/// writes.
pub open spec fn choice(
    g: GnfModel,
    writes: Seq<Access>,
    read: Access,
    key: Seq<u8>,
) -> (GnfModel, Formula) {
    let before = read_before_writes(g, writes, read, key, writes.len());
    let ms = matching(writes, read.value, writes.len());
    let found = explanations(before.0, writes, before.1, read, key, ms.len());
    (
        found.0,
        Formula::Or(
            if read.value is None {
                found.1.push(before_all(before.1))
            } else {
                found.1
            },
        ),
    )
}

/// `g` with what one read says where its key has several writes: the edges
/// of the choice, and the choice in conjunctive normal form.
pub open spec fn encode_choice(g: GnfModel, writes: Seq<Access>, read: Access, key: Seq<u8>) -> GnfModel {
    let c = choice(g, writes, read, key);
    with_group(c.0, ordering_comment(writes, read, key), cnf(c.1))
}

/// `g` with what the first `n` reads say where their key has several writes.
pub open spec fn encode_choices(
    g: GnfModel,
    writes: Seq<Access>,
    reads: Seq<Access>,
    key: Seq<u8>,
    n: nat,
) -> GnfModel
    decreases n,
{
    if n == 0 || n > reads.len() {
        g
    } else {
        encode_choice(
            encode_choices(g, writes, reads, key, (n - 1) as nat),
            writes,
            reads[n - 1],
            key,
        )
    }
}

/// `g` with what the reads of a key say, given its writes. Without a write
/// the reads say nothing.
pub open spec fn encode_key(
    g: GnfModel,
    writes: Seq<Access>,
    reads: Seq<Access>,
    key: Seq<u8>,
) -> GnfModel {
    if writes.len() == 0 {
        g
    } else if writes.len() == 1 {
        encode_single_reads(g, writes[0], reads, key, reads.len())
    } else {
        encode_choices(g, writes, reads, key, reads.len())
    }
}

/// `g` with what the reads of the first `n` of `keys` say.
pub open spec fn encode_keys(
    h: Seq<TransactionModel>,
    g: GnfModel,
    keys: Seq<Seq<u8>>,
    n: nat,
) -> GnfModel
    decreases n,
{
    if n == 0 || n > keys.len() {
        g
    } else {
        encode_key(
            encode_keys(h, g, keys, (n - 1) as nat),
            writes_of(h, keys[n - 1], h.len()),
            reads_of(h, keys[n - 1], h.len()),
            keys[n - 1],
        )
    }
}

/// The document after the nodes and the edges in real time: one node for
/// each transaction, in order.
pub open spec fn timed(h: Seq<TransactionModel>) -> GnfModel {
    realtime(h, with_nodes(initial(), h.len()), h.len())
}

/// The encoding of a history: the clause that asserts the acyclicity
/// variable, a node for each transaction, the edges in real time, and for
/// each key, in order, what its reads say.
pub open spec fn encoding(h: Seq<TransactionModel>) -> GnfModel {
    let keys = all_keys(specs_of(h));
    encode_keys(h, timed(h), keys, keys.len())
}

} // verus!
