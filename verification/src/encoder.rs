//! The encoding of a history, computed.

use crate::accesses::{lemma_value_from_nowhere, reads_what_nobody_wrote};
use crate::clause::Clause;
use crate::encoding::{
    before_all, before_in_time, candidate, choice, encode_choice, encode_choices, encode_key,
    encode_keys, encode_single, encode_single_reads, encoding, explanation, explanations, initial,
    key_is_impossible, label, label_on, matching, ordering_comment, other_writes, positive,
    read_before_writes, reads_of, realtime, realtime_row, single_explanation, spared, specs_of,
    timed, tx_reads, tx_writes, unexplained, unit, value_from_nowhere, variable_at,
    with_asserted_edge, with_edge, with_nodes, writes_of, writes_text, Access,
};
use crate::expression::{views, Expression};
use crate::formula::{children, Formula, Literal, Variable};
use crate::gnf::{well_formed, Gnf, Node};
use crate::history::{
    history_model, results_fit, results_model, value_model, InsertOperation, Operation,
    StatusModel, TransactionCompleted, TransactionSpec, TransactionStatus,
};
use crate::keys::{
    all_keys, bytes_equal, copy_bytes, insert_keys_of, key_views, keys_named,
};
use crate::progress::{
    continues, fits, lemma_accesses_within, lemma_choice, lemma_encoding, lemma_encode_choices,
    lemma_encode_keys, lemma_encode_single_reads, lemma_explanations, lemma_matching_within,
    lemma_other_writes, lemma_read_before_writes, lemma_realtime, lemma_realtime_row, within,
};
use crate::text::{decimal, push_bytes, push_decimal};
use vstd::prelude::*;
use vstd::string::StringExecFns;

verus! {

/// A read or a write of one key: the transaction that made it and the value
/// read or written, if any.
#[derive(Debug)]
pub struct KeyAccess {
    pub transaction_idx: usize,
    pub value: Option<Vec<u8>>,
}

impl View for KeyAccess {
    type V = Access;

    open spec fn view(&self) -> Access {
        Access { tx: self.transaction_idx as nat, value: value_model(self.value) }
    }
}

/// What a list of reads or writes holds.
pub open spec fn access_views(v: Seq<KeyAccess>) -> Seq<Access> {
    Seq::new(v.len(), |i: int| v[i]@)
}

/// Why a history has no encoding.
#[derive(Debug, Clone, Copy, PartialEq, Eq, Structural)]
pub enum HistoryError {
    /// A read saw a value that no transaction wrote under its key.
    ValueFromNowhere,
    /// The encoding needs more variables than the machine's integers count.
    TooManyVariables,
}

/// A copy of a value read or written.
fn copy_value(v: &Option<Vec<u8>>) -> (r: Option<Vec<u8>>)
    ensures
        value_model(r) == value_model(*v),
{
    match v {
        Some(bytes) => Some(copy_bytes(bytes.as_slice())),
        None => None,
    }
}

/// Whether two values read or written are equal.
fn value_equal(a: &Option<Vec<u8>>, b: &Option<Vec<u8>>) -> (r: bool)
    ensures
        r == (value_model(*a) == value_model(*b)),
{
    match a {
        Some(x) => match b {
            Some(y) => bytes_equal(x.as_slice(), y.as_slice()),
            None => false,
        },
        None => match b {
            Some(_) => false,
            None => true,
        },
    }
}

/// The reads and the writes of `key` in the history, each in the order of
/// the transactions and of their operations.
fn collect_accesses(transactions: &[(TransactionSpec, TransactionStatus)], key: &[u8]) -> (r: (
    Vec<KeyAccess>,
    Vec<KeyAccess>,
))
    requires
        results_fit(history_model(transactions@)),
    ensures
        access_views(r.0@) == reads_of(
            history_model(transactions@),
            key@,
            transactions@.len(),
        ),
        access_views(r.1@) == writes_of(
            history_model(transactions@),
            key@,
            transactions@.len(),
        ),
{
    let ghost h = history_model(transactions@);
    let mut reads: Vec<KeyAccess> = Vec::new();
    let mut writes: Vec<KeyAccess> = Vec::new();
    let mut tx_idx: usize = 0;
    assert(access_views(reads@) =~= reads_of(h, key@, 0));
    assert(access_views(writes@) =~= writes_of(h, key@, 0));
    while tx_idx < transactions.len()
        invariant
            tx_idx <= transactions.len(),
            h == history_model(transactions@),
            results_fit(h),
            access_views(reads@) == reads_of(h, key@, tx_idx as nat),
            access_views(writes@) == writes_of(h, key@, tx_idx as nat),
        decreases transactions.len() - tx_idx,
    {
        let tx = &transactions[tx_idx].0;
        let status = &transactions[tx_idx].1;
        let ghost model = h[tx_idx as int];
        let ghost reads_before = access_views(reads@);
        let ghost writes_before = access_views(writes@);
        assert(model.ops == tx@ && model.status == status@);
        assert(tx_reads(model, tx_idx as nat, key@, 0) =~= Seq::<Access>::empty());
        assert(tx_writes(model, tx_idx as nat, key@, 0) =~= Seq::<Access>::empty());
        assert(reads_before + Seq::<Access>::empty() =~= reads_before);
        assert(writes_before + Seq::<Access>::empty() =~= writes_before);
        let mut op_idx: usize = 0;
        while op_idx < tx.ops.len()
            invariant
                op_idx <= tx.ops.len(),
                tx_idx < transactions.len(),
                model == h[tx_idx as int],
                h == history_model(transactions@),
                model.ops == tx@,
                model.status == status@,
                results_fit(h),
                access_views(reads@) == reads_before + tx_reads(
                    model,
                    tx_idx as nat,
                    key@,
                    op_idx as nat,
                ),
                access_views(writes@) == writes_before + tx_writes(
                    model,
                    tx_idx as nat,
                    key@,
                    op_idx as nat,
                ),
            decreases tx.ops.len() - op_idx,
        {
            let op = &tx.ops[op_idx];
            assert(model.ops[op_idx as int] == op@);
            let ghost reads_now = access_views(reads@);
            let ghost writes_now = access_views(writes@);
            if bytes_equal(op.key(), key) {
                match op {
                    Operation::Get(_) => match status {
                        TransactionStatus::NeverRan => {},
                        TransactionStatus::Crashed(_) => {},
                        TransactionStatus::Completed(TransactionCompleted { get_results, .. }) => {
                            assert(h[tx_idx as int].status == status@);
                            assert(results_model(get_results@).len() == tx@.len());
                            let value = copy_value(&get_results[op_idx]);
                            assert(value_model(value) == results_model(
                                get_results@,
                            )[op_idx as int]);
                            reads.push(KeyAccess { transaction_idx: tx_idx, value });
                            assert(access_views(reads@) =~= reads_now.push(
                                Access {
                                    tx: tx_idx as nat,
                                    value: results_model(get_results@)[op_idx as int],
                                },
                            ));
                        },
                    },
                    Operation::Insert(InsertOperation { value, .. }) => {
                        let copy = copy_bytes(value.as_slice());
                        writes.push(KeyAccess { transaction_idx: tx_idx, value: Some(copy) });
                        assert(access_views(writes@) =~= writes_now.push(
                            Access { tx: tx_idx as nat, value: Some(value@) },
                        ));
                    },
                    Operation::Remove(_) => {
                        writes.push(KeyAccess { transaction_idx: tx_idx, value: None });
                        assert(access_views(writes@) =~= writes_now.push(
                            Access { tx: tx_idx as nat, value: None },
                        ));
                    },
                }
            }
            proof {
                let r0 = tx_reads(model, tx_idx as nat, key@, op_idx as nat);
                let r1 = tx_reads(model, tx_idx as nat, key@, (op_idx + 1) as nat);
                let w0 = tx_writes(model, tx_idx as nat, key@, op_idx as nat);
                let w1 = tx_writes(model, tx_idx as nat, key@, (op_idx + 1) as nat);
                if r1 == r0 {
                    assert(access_views(reads@) == reads_before + r1);
                } else {
                    assert(access_views(reads@) =~= reads_before + r1);
                }
                if w1 == w0 {
                    assert(access_views(writes@) == writes_before + w1);
                } else {
                    assert(access_views(writes@) =~= writes_before + w1);
                }
            }
            op_idx += 1;
        }
        tx_idx += 1;
    }
    (reads, writes)
}

/// The keys that the transactions of the history name, without repetition
/// and in order.
fn history_keys(transactions: &[(TransactionSpec, TransactionStatus)]) -> (keys: Vec<Vec<u8>>)
    ensures
        key_views(keys@) == all_keys(specs_of(history_model(transactions@))),
{
    let ghost specs = specs_of(history_model(transactions@));
    let mut keys: Vec<Vec<u8>> = Vec::new();
    let mut i: usize = 0;
    assert(key_views(keys@) =~= Seq::<Seq<u8>>::empty());
    while i < transactions.len()
        invariant
            i <= transactions.len(),
            specs == specs_of(history_model(transactions@)),
            key_views(keys@) == keys_named(specs, i as nat),
        decreases transactions.len() - i,
    {
        assert(specs[i as int] == transactions[i as int].0@);
        insert_keys_of(&mut keys, &transactions[i].0);
        i += 1;
    }
    keys
}

/// Whether the read saw a value that none of the writes wrote.
fn is_unexplained(read: &KeyAccess, writes: &Vec<KeyAccess>) -> (r: bool)
    ensures
        r == unexplained(read@, access_views(writes@)),
{
    if read.value.is_none() {
        return false;
    }
    let mut j: usize = 0;
    while j < writes.len()
        invariant
            j <= writes.len(),
            read@.value is Some,
            forall|k: int| 0 <= k < j ==> (#[trigger] access_views(writes@)[k]).value != read@.value,
        decreases writes.len() - j,
    {
        assert(access_views(writes@)[j as int] == writes[j as int]@);
        if value_equal(&writes[j].value, &read.value) {
            return false;
        }
        j += 1;
    }
    true
}

/// Whether some read of the history saw a value that no transaction wrote
/// under its key. Such a history has no explanation, whatever the order of
/// its transactions.
pub fn has_value_from_nowhere(transactions: &[(TransactionSpec, TransactionStatus)]) -> (r: bool)
    requires
        results_fit(history_model(transactions@)),
    ensures
        r == value_from_nowhere(history_model(transactions@)),
        r == reads_what_nobody_wrote(history_model(transactions@)),
{
    let ghost h = history_model(transactions@);
    let keys = history_keys(transactions);
    let mut k: usize = 0;
    while k < keys.len()
        invariant
            k <= keys.len(),
            h == history_model(transactions@),
            results_fit(h),
            key_views(keys@) == all_keys(specs_of(h)),
            forall|i: int| 0 <= i < k ==> !key_is_impossible(h, #[trigger] key_views(keys@)[i]),
        decreases keys.len() - k,
    {
        let ghost key = keys[k as int]@;
        assert(key_views(keys@)[k as int] == key);
        let (reads, writes) = collect_accesses(transactions, keys[k].as_slice());
        let mut i: usize = 0;
        while i < reads.len()
            invariant
                i <= reads.len(),
                k < keys.len(),
                h == history_model(transactions@),
                key == key_views(keys@)[k as int],
                key_views(keys@) == all_keys(specs_of(h)),
                access_views(reads@) == reads_of(h, key, h.len()),
                access_views(writes@) == writes_of(h, key, h.len()),
                forall|j: int|
                    0 <= j < i ==> !unexplained(
                        #[trigger] reads_of(h, key, h.len())[j],
                        writes_of(h, key, h.len()),
                    ),
            decreases reads.len() - i,
        {
            assert(access_views(reads@)[i as int] == reads[i as int]@);
            if is_unexplained(&reads[i], &writes) {
                assert(key_is_impossible(h, key));
                assert(key_is_impossible(h, all_keys(specs_of(h))[k as int]));
                proof {
                    lemma_value_from_nowhere(h);
                }
                return true;
            }
            i += 1;
        }
        k += 1;
    }
    proof {
        lemma_value_from_nowhere(h);
    }
    false
}

/// The text `<before><a><between><b>`, with the numbers in decimal.
fn make_label(before: &str, a: usize, between: &str, b: usize) -> (text: String)
    ensures
        text@ == label(before@, a as nat, between@, b as nat),
{
    let mut text = String::from_str(before);
    push_decimal(&mut text, a);
    text.append(between);
    push_decimal(&mut text, b);
    text
}

/// The text `<lead><before><a><between><b> on <key>`.
fn make_label_on(lead: &str, before: &str, a: usize, between: &str, b: usize, key: &[u8]) -> (text:
    String)
    ensures
        text@ == lead@ + label_on(before@, a as nat, between@, b as nat, key@),
{
    let mut text = String::from_str(lead);
    text.append(before);
    push_decimal(&mut text, a);
    text.append(between);
    push_decimal(&mut text, b);
    text.append(" on ");
    push_bytes(&mut text, key);
    assert(text@ =~= lead@ + label_on(before@, a as nat, between@, b as nat, key@));
    text
}

/// Adds a new variable and an edge that it switches, if a variable is left.
fn add_switched_edge(gnf: &mut Gnf, from: usize, to: usize, comment: String) -> (variable: Option<
    Variable,
>)
    ensures
        match variable {
            Some(v) => v.0 == old(gnf)@.n_variables + 1 && final(gnf)@ == with_edge(
                old(gnf)@,
                from as nat,
                to as nat,
                comment@,
            ),
            None => !fits(with_edge(old(gnf)@, from as nat, to as nat, comment@)) && final(gnf)@
                == old(gnf)@,
        },
{
    if gnf.variables() == usize::MAX {
        return None;
    }
    let variable = gnf.add_variable();
    gnf.add_edge(Node(from), Node(to), variable, comment);
    Some(variable)
}

/// Adds a new variable, the clause that asserts it and an edge that it
/// switches, if a variable is left.
fn add_asserted_edge(
    gnf: &mut Gnf,
    from: usize,
    to: usize,
    clause_comment: String,
    edge_comment: String,
) -> (added: bool)
    ensures
        added ==> final(gnf)@ == with_asserted_edge(
            old(gnf)@,
            from as nat,
            to as nat,
            clause_comment@,
            edge_comment@,
        ),
        !added ==> !fits(
            with_asserted_edge(old(gnf)@, from as nat, to as nat, clause_comment@, edge_comment@),
        ) && final(gnf)@ == old(gnf)@,
{
    if gnf.variables() == usize::MAX {
        return false;
    }
    let variable = gnf.add_variable();
    let mut literals: Vec<Literal> = Vec::new();
    literals.push(Literal::Variable(variable));
    assert(literals@ =~= unit(variable.0 as nat));
    gnf.add_clause(Clause { literals }, clause_comment);
    gnf.add_edge(Node(from), Node(to), variable, edge_comment);
    true
}

/// Whether the first transaction ended before the second started, both
/// having run to their end.
fn ended_before(first: &TransactionStatus, second: &TransactionStatus) -> (r: bool)
    ensures
        r == match (first@, second@) {
            (
                StatusModel::Completed { end, .. },
                StatusModel::Completed { start, .. },
            ) => start > end,
            _ => false,
        },
{
    match first {
        TransactionStatus::Completed(TransactionCompleted { end: end_1, .. }) => match second {
            TransactionStatus::Completed(TransactionCompleted { start: start_2, .. }) => *start_2
                > *end_1,
            _ => false,
        },
        _ => false,
    }
}

/// Adds the edges in real time: one from each transaction to each that
/// started after it ended.
fn add_realtime_edges(gnf: &mut Gnf, transactions: &[(TransactionSpec, TransactionStatus)]) -> (added:
    bool)
    ensures
        added ==> final(gnf)@ == realtime(
            history_model(transactions@),
            old(gnf)@,
            transactions@.len(),
        ),
        !added ==> !fits(
            realtime(history_model(transactions@), old(gnf)@, transactions@.len()),
        ),
{
    let ghost h = history_model(transactions@);
    let ghost g0 = gnf@;
    let mut i1: usize = 0;
    while i1 < transactions.len()
        invariant
            i1 <= transactions.len(),
            h == history_model(transactions@),
            g0 == old(gnf)@,
            gnf@ == realtime(h, g0, i1 as nat),
        decreases transactions.len() - i1,
    {
        let ghost row_start = gnf@;
        let mut i2: usize = 0;
        while i2 < transactions.len()
            invariant
                i2 <= transactions.len(),
                i1 < transactions.len(),
                h == history_model(transactions@),
                g0 == old(gnf)@,
                row_start == realtime(h, g0, i1 as nat),
                gnf@ == realtime_row(h, row_start, i1 as int, i2 as nat),
            decreases transactions.len() - i2,
        {
            assert(h[i1 as int].status == transactions[i1 as int].1@);
            assert(h[i2 as int].status == transactions[i2 as int].1@);
            if ended_before(&transactions[i1].1, &transactions[i2].1) {
                let clause_comment = make_label("Real-time edge from T", i1, " to T", i2);
                let edge_comment = make_label("Real time ordering of T", i1, " and T", i2);
                let added = add_asserted_edge(gnf, i1, i2, clause_comment, edge_comment);
                if !added {
                    proof {
                        let next = realtime_row(h, row_start, i1 as int, (i2 + 1) as nat);
                        assert(before_in_time(h, i1 as int, i2 as int));
                        assert(!fits(next));
                        lemma_realtime_row(h, row_start, i1 as int, (i2 + 1) as nat, h.len());
                        assert(realtime(h, g0, (i1 + 1) as nat) == realtime_row(
                            h,
                            row_start,
                            i1 as int,
                            h.len(),
                        ));
                        lemma_realtime(h, g0, (i1 + 1) as nat, h.len());
                    }
                    return false;
                }
            }
            i2 += 1;
        }
        i1 += 1;
    }
    true
}

/// Adds what the reads of a key say where the key has the single write
/// `write`. Every read saw what the write wrote, or nothing.
fn add_single_reads(
    gnf: &mut Gnf,
    write: &KeyAccess,
    reads: &Vec<KeyAccess>,
    key: &[u8],
    Ghost(nodes): Ghost<nat>,
) -> (added: bool)
    requires
        write@.tx < nodes,
        within(access_views(reads@), nodes),
        forall|i: int|
            0 <= i < reads.len() ==> !unexplained(
                #[trigger] access_views(reads@)[i],
                seq![write@],
            ),
    ensures
        added ==> final(gnf)@ == encode_single_reads(
            old(gnf)@,
            write@,
            access_views(reads@),
            key@,
            reads@.len(),
        ),
        !added ==> !fits(
            encode_single_reads(old(gnf)@, write@, access_views(reads@), key@, reads@.len()),
        ),
{
    let ghost g0 = gnf@;
    let ghost rs = access_views(reads@);
    let mut i: usize = 0;
    while i < reads.len()
        invariant
            i <= reads.len(),
            rs == access_views(reads@),
            write@.tx < nodes,
            within(rs, nodes),
            g0 == old(gnf)@,
            forall|i: int| 0 <= i < reads.len() ==> !unexplained(#[trigger] rs[i], seq![write@]),
            gnf@ == encode_single_reads(g0, write@, rs, key@, i as nat),
        decreases reads.len() - i,
    {
        let read = &reads[i];
        assert(rs[i as int] == read@);
        let write_tx_id = write.transaction_idx;
        let read_tx_id = read.transaction_idx;
        proof {
            reveal_strlit("");
            assert(!unexplained(rs[i as int], seq![write@]));
            if read@.value is Some {
                assert(seq![write@][0].value == read@.value);
            }
        }
        let added = match &write.value {
            None => {
                // The write is a removal, so the read saw nothing: it may
                // have come before the removal or after it.
                assert(read@.value is None);
                true
            },
            Some(_) => match &read.value {
                None => {
                    // The read saw nothing, so it came before the write.
                    let clause_comment = make_label_on(
                        "",
                        "R-W anti-dependency edge from T",
                        read_tx_id,
                        " to T",
                        write_tx_id,
                        key,
                    );
                    let edge_comment = make_label_on(
                        "",
                        "R-W anti-dependeny from T",
                        read_tx_id,
                        " to T",
                        write_tx_id,
                        key,
                    );
                    assert(""@ + clause_comment@ =~= clause_comment@);
                    assert(""@ + edge_comment@ =~= edge_comment@);
                    add_asserted_edge(gnf, read_tx_id, write_tx_id, clause_comment, edge_comment)
                },
                Some(_) => {
                    // The read saw the value written, so it came after the
                    // write.
                    let clause_comment = make_label_on(
                        "",
                        "W-R dependency edge from T",
                        write_tx_id,
                        " to T",
                        read_tx_id,
                        key,
                    );
                    let edge_comment = make_label_on(
                        "",
                        "W-R dependency from T",
                        write_tx_id,
                        " to T",
                        read_tx_id,
                        key,
                    );
                    assert(""@ + clause_comment@ =~= clause_comment@);
                    assert(""@ + edge_comment@ =~= edge_comment@);
                    add_asserted_edge(gnf, write_tx_id, read_tx_id, clause_comment, edge_comment)
                },
            },
        };
        if !added {
            proof {
                let prev = encode_single_reads(g0, write@, rs, key@, i as nat);
                let next = encode_single_reads(g0, write@, rs, key@, (i + 1) as nat);
                assert(next == encode_single(prev, write@, rs[i as int], key@));
                assert(!fits(next));
                lemma_encode_single_reads(
                    g0,
                    write@,
                    rs,
                    key@,
                    (i + 1) as nat,
                    rs.len(),
                    nodes,
                );
            }
            return false;
        }
        i += 1;
    }
    true
}

/// What a list of transaction numbers holds.
pub open spec fn number_views(v: Seq<usize>) -> Seq<nat> {
    Seq::new(v.len(), |i: int| v[i] as nat)
}

/// What a list of variables, with empty places, holds.
pub open spec fn variable_views(v: Seq<Option<Variable>>) -> Seq<Option<nat>> {
    Seq::new(
        v.len(),
        |i: int|
            match v[i] {
                Some(x) => Some(x.0 as nat),
                None => None,
            },
    )
}

/// The transactions of the writes that wrote `value`.
fn matching_writes(writes: &Vec<KeyAccess>, value: &Option<Vec<u8>>) -> (ids: Vec<usize>)
    ensures
        number_views(ids@) == matching(access_views(writes@), value_model(*value), writes@.len()),
{
    let ghost ws = access_views(writes@);
    let mut ids: Vec<usize> = Vec::new();
    let mut j: usize = 0;
    assert(number_views(ids@) =~= matching(ws, value_model(*value), 0));
    while j < writes.len()
        invariant
            j <= writes.len(),
            ws == access_views(writes@),
            number_views(ids@) == matching(ws, value_model(*value), j as nat),
        decreases writes.len() - j,
    {
        assert(ws[j as int] == writes[j as int]@);
        let ghost before = number_views(ids@);
        if value_equal(value, &writes[j].value) {
            ids.push(writes[j].transaction_idx);
            assert(number_views(ids@) =~= before.push(ws[j as int].tx));
        }
        j += 1;
    }
    ids
}

/// The writes as text: `T` and the transaction's number for each.
fn writes_label(writes: &Vec<KeyAccess>) -> (text: String)
    ensures
        text@ == writes_text(access_views(writes@), writes@.len()),
{
    let ghost ws = access_views(writes@);
    let mut text = String::new();
    let mut j: usize = 0;
    assert(text@ =~= writes_text(ws, 0));
    while j < writes.len()
        invariant
            j <= writes.len(),
            ws == access_views(writes@),
            text@ == writes_text(ws, j as nat),
        decreases writes.len() - j,
    {
        assert(ws[j as int] == writes[j as int]@);
        let ghost before = text@;
        if j > 0 {
            text.append(", ");
        }
        text.append("T");
        push_decimal(&mut text, writes[j].transaction_idx);
        proof {
            if j == 0 {
                assert(before =~= Seq::<char>::empty());
                assert(text@ =~= "T"@ + decimal(ws[0].tx));
            } else {
                assert(text@ =~= before + ", "@ + "T"@ + decimal(ws[j as int].tx));
            }
        }
        j += 1;
    }
    text
}

/// Adds what one read says where its key has several writes: for each write
/// of the value read, the edges and the condition under which that write is
/// the one that the read saw; for a read of nothing, also the condition
/// that it came before every write; and the clauses that ask for one of
/// these conditions.
fn add_choice(
    gnf: &mut Gnf,
    writes: &Vec<KeyAccess>,
    read: &KeyAccess,
    key: &[u8],
    Ghost(nodes): Ghost<nat>,
) -> (added: bool)
    requires
        read@.tx < nodes,
        within(access_views(writes@), nodes),
    ensures
        added ==> final(gnf)@ == encode_choice(old(gnf)@, access_views(writes@), read@, key@),
        !added ==> !fits(encode_choice(old(gnf)@, access_views(writes@), read@, key@)),
{
    let ghost g0 = gnf@;
    let ghost ws = access_views(writes@);
    let ghost r = read@;
    let read_tx_id = read.transaction_idx;
    let matching_write_tx_ids = matching_writes(writes, &read.value);
    let ghost ms = matching(ws, r.value, ws.len());
    proof {
        lemma_choice(g0, ws, r, key@, nodes);
        lemma_matching_within(ws, r.value, ws.len(), nodes);
    }
    // With a single explanation the edges are no candidates: they are
    // there for sure.
    let outer_disj_will_be_trivial = if read.value.is_none() {
        matching_write_tx_ids.len() == 0
    } else {
        matching_write_tx_ids.len() == 1
    };
    assert(outer_disj_will_be_trivial == single_explanation(ws, r));
    let lead = if outer_disj_will_be_trivial {
        ""
    } else {
        "Candidate "
    };
    assert(lead@ == candidate(ws, r));
    // The edges from the read to the writes are the only ones that occur
    // more than once in the formula. Where a single write wrote the value
    // read, the edge to that write is not used, and is left out.
    let mut read_to_write_antidep_edges: Vec<Option<Variable>> = Vec::new();
    let mut j: usize = 0;
    assert(variable_views(read_to_write_antidep_edges@) =~= read_before_writes(
        g0,
        ws,
        r,
        key@,
        0,
    ).1);
    while j < writes.len()
        invariant
            j <= writes.len(),
            g0 == old(gnf)@,
            ws == access_views(writes@),
            r == read@,
            read_tx_id == read.transaction_idx,
            ms == matching(ws, r.value, ws.len()),
            number_views(matching_write_tx_ids@) == ms,
            lead@ == candidate(ws, r),
            r.tx < nodes,
            within(ws, nodes),
            read_to_write_antidep_edges.len() == j,
            (gnf@, variable_views(read_to_write_antidep_edges@)) == read_before_writes(
                g0,
                ws,
                r,
                key@,
                j as nat,
            ),
            forall|k: int|
                0 <= k < j ==> ((#[trigger] read_to_write_antidep_edges[k]) is None <==> spared(
                    ws,
                    r,
                    k,
                )),
        decreases writes.len() - j,
    {
        assert(ws[j as int] == writes[j as int]@);
        let write_tx_id = writes[j].transaction_idx;
        let ghost vars = variable_views(read_to_write_antidep_edges@);
        let is_spared = if matching_write_tx_ids.len() == 1 {
            assert(ms[0] == matching_write_tx_ids[0]);
            write_tx_id == matching_write_tx_ids[0] && read.value.is_some()
        } else {
            false
        };
        assert(is_spared == spared(ws, r, j as int));
        if is_spared {
            read_to_write_antidep_edges.push(None);
            assert(variable_views(read_to_write_antidep_edges@) =~= vars.push(None));
        } else {
            let comment = make_label_on(
                lead,
                "R-W anti-dependency from T",
                read_tx_id,
                " to T",
                write_tx_id,
                key,
            );
            match add_switched_edge(gnf, read_tx_id, write_tx_id, comment) {
                Some(var) => {
                    read_to_write_antidep_edges.push(Some(var));
                    assert(variable_views(read_to_write_antidep_edges@) =~= vars.push(
                        Some(var.0 as nat),
                    ));
                },
                None => {
                    proof {
                        let next = read_before_writes(g0, ws, r, key@, (j + 1) as nat);
                        assert(!fits(next.0));
                        lemma_choice(g0, ws, r, key@, nodes);
                        lemma_read_before_writes(
                            g0,
                            ws,
                            r,
                            key@,
                            (j + 1) as nat,
                            ws.len(),
                            nodes,
                        );
                    }
                    return false;
                },
            }
        }
        j += 1;
    }
    let ghost before = variable_views(read_to_write_antidep_edges@);
    let ghost g1 = gnf@;
    // One disjunct for each write of the value read.
    let mut disj_args: Vec<Expression> = Vec::new();
    let mut p: usize = 0;
    assert(views(disj_args@) =~= explanations(g1, ws, before, r, key@, 0).1);
    while p < matching_write_tx_ids.len()
        invariant
            p <= matching_write_tx_ids.len(),
            g0 == old(gnf)@,
            ws == access_views(writes@),
            r == read@,
            read_tx_id == read.transaction_idx,
            ms == matching(ws, r.value, ws.len()),
            number_views(matching_write_tx_ids@) == ms,
            lead@ == candidate(ws, r),
            r.tx < nodes,
            within(ws, nodes),
            forall|q: int| 0 <= q < ms.len() ==> #[trigger] ms[q] < nodes,
            before == variable_views(read_to_write_antidep_edges@),
            read_to_write_antidep_edges.len() == writes.len(),
            (g1, before) == read_before_writes(g0, ws, r, key@, ws.len()),
            continues(g1, choice(g0, ws, r, key@).0, nodes),
            forall|k: int|
                0 <= k < writes.len() ==> ((#[trigger] read_to_write_antidep_edges[k]) is None
                    <==> spared(ws, r, k)),
            (gnf@, views(disj_args@)) == explanations(g1, ws, before, r, key@, p as nat),
        decreases matching_write_tx_ids.len() - p,
    {
        let matching_write_tx_id = matching_write_tx_ids[p];
        let ghost chosen = ms[p as int];
        assert(chosen == matching_write_tx_id);
        let ghost found = views(disj_args@);
        let ghost g2 = gnf@;
        let edge_name = make_label_on(
            lead,
            "W-R dependency from T",
            matching_write_tx_id,
            " to T",
            read_tx_id,
            key,
        );
        let write_to_read_dep_edge = match add_switched_edge(
            gnf,
            matching_write_tx_id,
            read_tx_id,
            edge_name,
        ) {
            Some(var) => var,
            None => {
                proof {
                    let first = with_edge(g2, chosen, r.tx, edge_name@);
                    lemma_other_writes(first, ws, before, chosen, key@, 0, ws.len(), nodes);
                    assert(!fits(explanation(g2, ws, before, r, chosen, key@).0));
                    assert(!fits(explanations(g1, ws, before, r, key@, (p + 1) as nat).0));
                    assert(choice(g0, ws, r, key@).0 == explanations(
                        g1,
                        ws,
                        before,
                        r,
                        key@,
                        ms.len(),
                    ).0);
                    lemma_explanations(
                        g1,
                        ws,
                        before,
                        r,
                        key@,
                        (p + 1) as nat,
                        ms.len(),
                        nodes,
                    );
                }
                return false;
            },
        };
        let ghost first = gnf@;
        assert(explanations(g1, ws, before, r, key@, (p + 1) as nat).0 == explanation(
            g2,
            ws,
            before,
            r,
            chosen,
            key@,
        ).0);
        let mut conj_args: Vec<Expression> = Vec::new();
        conj_args.push(Expression::Literal(Literal::Variable(write_to_read_dep_edge)));
        let ghost head = seq![Formula::Atom(positive(g2.n_variables + 1))];
        assert(views(conj_args@) =~= head + other_writes(first, ws, before, chosen, key@, 0).1);
        let mut k: usize = 0;
        while k < writes.len()
            invariant
                k <= writes.len(),
                p < matching_write_tx_ids.len(),
                p < ms.len(),
                g0 == old(gnf)@,
                r == read@,
                r.tx < nodes,
                ws == access_views(writes@),
                chosen == matching_write_tx_id,
                chosen == ms[p as int],
                ms == matching(ws, r.value, ws.len()),
                (g1, before) == read_before_writes(g0, ws, r, key@, ws.len()),
                explanations(g1, ws, before, r, key@, (p + 1) as nat).0 == other_writes(
                    first,
                    ws,
                    before,
                    chosen,
                    key@,
                    ws.len(),
                ).0,
                chosen < nodes,
                within(ws, nodes),
                before == variable_views(read_to_write_antidep_edges@),
                read_to_write_antidep_edges.len() == writes.len(),
                forall|i: int|
                    0 <= i < writes.len() ==> ((#[trigger] read_to_write_antidep_edges[i]) is None
                        <==> spared(ws, r, i)),
                gnf@ == other_writes(first, ws, before, chosen, key@, k as nat).0,
                views(conj_args@) == head + other_writes(
                    first,
                    ws,
                    before,
                    chosen,
                    key@,
                    k as nat,
                ).1,
            decreases writes.len() - k,
        {
            assert(ws[k as int] == writes[k as int]@);
            let other_write_tx_id = writes[k].transaction_idx;
            if other_write_tx_id != matching_write_tx_id {
                let ghost args = views(conj_args@);
                let ghost g3 = gnf@;
                let comment = make_label_on(
                    "",
                    "Candidate W-W anti-dependency from T",
                    other_write_tx_id,
                    " to T",
                    matching_write_tx_id,
                    key,
                );
                proof {
                    reveal_strlit("");
                    assert(""@ + label_on(
                        "Candidate W-W anti-dependency from T"@,
                        other_write_tx_id as nat,
                        " to T"@,
                        matching_write_tx_id as nat,
                        key@,
                    ) =~= label_on(
                        "Candidate W-W anti-dependency from T"@,
                        other_write_tx_id as nat,
                        " to T"@,
                        matching_write_tx_id as nat,
                        key@,
                    ));
                }
                let write_to_write_antidep_edge = match add_switched_edge(
                    gnf,
                    other_write_tx_id,
                    matching_write_tx_id,
                    comment,
                ) {
                    Some(var) => var,
                    None => {
                        proof {
                            assert(!fits(
                                other_writes(first, ws, before, chosen, key@, (k + 1) as nat).0,
                            ));
                            lemma_other_writes(
                                first,
                                ws,
                                before,
                                chosen,
                                key@,
                                (k + 1) as nat,
                                ws.len(),
                                nodes,
                            );
                            assert(choice(g0, ws, r, key@).0 == explanations(
                                g1,
                                ws,
                                before,
                                r,
                                key@,
                                ms.len(),
                            ).0);
                            lemma_explanations(
                                g1,
                                ws,
                                before,
                                r,
                                key@,
                                (p + 1) as nat,
                                ms.len(),
                                nodes,
                            );
                        }
                        return false;
                    },
                };
                assert(!spared(ws, r, k as int));
                let read_to_write_antidep_edge = read_to_write_antidep_edges[k].unwrap();
                assert(read_to_write_antidep_edge.0 == variable_at(before, k as int));
                let pair = vec![
                    Expression::Literal(Literal::Variable(write_to_write_antidep_edge)),
                    Expression::Literal(Literal::Variable(read_to_write_antidep_edge)),
                ];
                assert(views(pair@) =~= seq![
                    Formula::Atom(positive(g3.n_variables + 1)),
                    Formula::Atom(positive(variable_at(before, k as int))),
                ]);
                let ghost condition = Formula::Or(
                    seq![
                        Formula::Atom(positive(g3.n_variables + 1)),
                        Formula::Atom(positive(variable_at(before, k as int))),
                    ],
                );
                conj_args.push(Expression::Disjunction(pair));
                assert(views(conj_args@) =~= args.push(condition));
                assert(other_writes(first, ws, before, chosen, key@, (k + 1) as nat).1
                    == other_writes(first, ws, before, chosen, key@, k as nat).1.push(condition));
                assert(views(conj_args@) =~= head + other_writes(
                    first,
                    ws,
                    before,
                    chosen,
                    key@,
                    (k + 1) as nat,
                ).1);
            }
            k += 1;
        }
        disj_args.push(Expression::Conjunction(conj_args));
        assert(views(disj_args@) =~= found.push(
            explanation(g2, ws, before, r, chosen, key@).1,
        ));
        p += 1;
    }
    let ghost g4 = gnf@;
    if read.value.is_none() {
        // the read saw the state before any write
        let ghost found = views(disj_args@);
        let mut conj_args: Vec<Expression> = Vec::new();
        let mut k: usize = 0;
        while k < writes.len()
            invariant
                k <= writes.len(),
                conj_args.len() == k,
                r == read@,
                r.value is None,
                before == variable_views(read_to_write_antidep_edges@),
                read_to_write_antidep_edges.len() == writes.len(),
                forall|i: int|
                    0 <= i < writes.len() ==> ((#[trigger] read_to_write_antidep_edges[i]) is None
                        <==> spared(ws, r, i)),
                forall|i: int|
                    0 <= i < k ==> (#[trigger] conj_args[i])@ == Formula::Atom(
                        positive(variable_at(before, i)),
                    ),
            decreases writes.len() - k,
        {
            assert(!spared(ws, r, k as int));
            let read_to_write_antidep_edge = read_to_write_antidep_edges[k].unwrap();
            assert(read_to_write_antidep_edge.0 == variable_at(before, k as int));
            conj_args.push(Expression::Literal(Literal::Variable(read_to_write_antidep_edge)));
            k += 1;
        }
        assert(Expression::Conjunction(conj_args)@ == before_all(before)) by {
            assert(views(conj_args@) =~= children(before_all(before)));
        }
        disj_args.push(Expression::Conjunction(conj_args));
        assert(views(disj_args@) =~= found.push(before_all(before)));
    }
    let expr = Expression::Disjunction(disj_args);
    assert(expr@ == choice(g0, ws, r, key@).1);
    assert(gnf@ == choice(g0, ws, r, key@).0);
    let writes_str = writes_label(writes);
    let mut comment = String::from_str("Ordering of writes [");
    comment.append(writes_str.as_str());
    comment.append("] and read T");
    push_decimal(&mut comment, read_tx_id);
    comment.append(" on ");
    push_bytes(&mut comment, key);
    assert(comment@ =~= ordering_comment(ws, r, key@));
    let clauses = expr.to_cnf();
    gnf.add_clauses(clauses, comment);
    true
}

/// Adds what the reads of `key` say, given its writes.
fn add_key(gnf: &mut Gnf, transactions: &[(TransactionSpec, TransactionStatus)], key: &[u8]) -> (added:
    bool)
    requires
        results_fit(history_model(transactions@)),
        !key_is_impossible(history_model(transactions@), key@),
    ensures
        added ==> final(gnf)@ == encode_key(
            old(gnf)@,
            writes_of(history_model(transactions@), key@, transactions@.len()),
            reads_of(history_model(transactions@), key@, transactions@.len()),
            key@,
        ),
        !added ==> !fits(
            encode_key(
                old(gnf)@,
                writes_of(history_model(transactions@), key@, transactions@.len()),
                reads_of(history_model(transactions@), key@, transactions@.len()),
                key@,
            ),
        ),
{
    let ghost h = history_model(transactions@);
    let ghost g0 = gnf@;
    let (reads, writes) = collect_accesses(transactions, key);
    let ghost rs = access_views(reads@);
    let ghost ws = access_views(writes@);
    proof {
        lemma_accesses_within(h, key@, h.len());
    }
    if writes.len() == 0 {
        // without a write every read saw nothing, and nothing follows
        true
    } else if writes.len() == 1 {
        // One write: each read is taken by itself, as the order of the
        // reads among themselves is free.
        assert(ws[0] == writes[0]@);
        assert(ws =~= seq![writes[0]@]);
        add_single_reads(gnf, &writes[0], &reads, key, Ghost(h.len()))
    } else {
        let mut i: usize = 0;
        while i < reads.len()
            invariant
                i <= reads.len(),
                g0 == old(gnf)@,
                rs == access_views(reads@),
                ws == access_views(writes@),
                within(rs, h.len()),
                within(ws, h.len()),
                h == history_model(transactions@),
                rs == reads_of(h, key@, h.len()),
                ws == writes_of(h, key@, h.len()),
                ws.len() > 1,
                gnf@ == encode_choices(g0, ws, rs, key@, i as nat),
            decreases reads.len() - i,
        {
            assert(rs[i as int] == reads[i as int]@);
            if !add_choice(gnf, &writes, &reads[i], key, Ghost(h.len())) {
                proof {
                    assert(!fits(encode_choices(g0, ws, rs, key@, (i + 1) as nat)));
                    lemma_encode_choices(g0, ws, rs, key@, (i + 1) as nat, rs.len(), h.len());
                }
                return false;
            }
            i += 1;
        }
        true
    }
}

/// Whether each completed transaction reports one result for each of its
/// operations.
pub fn has_fitting_results(transactions: &[(TransactionSpec, TransactionStatus)]) -> (r: bool)
    ensures
        r == results_fit(history_model(transactions@)),
{
    let ghost h = history_model(transactions@);
    let mut i: usize = 0;
    while i < transactions.len()
        invariant
            i <= transactions.len(),
            h == history_model(transactions@),
            forall|j: int|
                0 <= j < i ==> match (#[trigger] h[j]).status {
                    StatusModel::Completed { get_results, .. } => get_results.len()
                        == h[j].ops.len(),
                    _ => true,
                },
        decreases transactions.len() - i,
    {
        assert(h[i as int].ops == transactions[i as int].0@);
        assert(h[i as int].status == transactions[i as int].1@);
        match &transactions[i].1 {
            TransactionStatus::Completed(completed) => {
                if completed.get_results.len() != transactions[i].0.ops.len() {
                    return false;
                }
            },
            _ => {},
        }
        i += 1;
    }
    true
}

/// Encodes a history: the question whether its transactions can be put in
/// an order that respects real time and explains every read becomes the
/// question whether the clauses can be met with the switched edges forming
/// no cycle.
///
/// A history in which a read saw a value that nobody wrote has no encoding;
/// nor has one that needs more variables than can be counted.
pub fn encode_history(transactions: &[(TransactionSpec, TransactionStatus)]) -> (r: Result<
    Gnf,
    HistoryError,
>)
    requires
        results_fit(history_model(transactions@)),
    ensures
        match r {
            Ok(gnf) => !value_from_nowhere(history_model(transactions@)) && gnf@ == encoding(
                history_model(transactions@),
            ) && well_formed(gnf@),
            Err(HistoryError::ValueFromNowhere) => value_from_nowhere(
                history_model(transactions@),
            ),
            Err(HistoryError::TooManyVariables) => !value_from_nowhere(
                history_model(transactions@),
            ) && !fits(encoding(history_model(transactions@))),
        },
{
    let ghost h = history_model(transactions@);
    if has_value_from_nowhere(transactions) {
        return Err(HistoryError::ValueFromNowhere);
    }
    let mut gnf = Gnf::new();
    let mut literals: Vec<Literal> = Vec::new();
    literals.push(Literal::Variable(gnf.acyclic_variable()));
    assert(literals@ =~= unit(1));
    gnf.add_clause(Clause { literals }, String::from_str("Acyclic property"));
    assert(gnf@.groups =~= initial().groups);
    assert(gnf@ == initial());
    let mut n: usize = 0;
    while n < transactions.len()
        invariant
            n <= transactions.len(),
            gnf@ == with_nodes(initial(), n as nat),
        decreases transactions.len() - n,
    {
        let _ = gnf.add_node();
        n += 1;
    }
    let ghost keys_model = all_keys(specs_of(h));
    if !add_realtime_edges(&mut gnf, transactions) {
        proof {
            lemma_encode_keys(h, timed(h), keys_model, 0, keys_model.len());
        }
        return Err(HistoryError::TooManyVariables);
    }
    let keys = history_keys(transactions);
    let mut k: usize = 0;
    while k < keys.len()
        invariant
            k <= keys.len(),
            h == history_model(transactions@),
            results_fit(h),
            !value_from_nowhere(h),
            keys_model == all_keys(specs_of(h)),
            key_views(keys@) == keys_model,
            gnf@ == encode_keys(h, timed(h), keys_model, k as nat),
        decreases keys.len() - k,
    {
        assert(keys_model[k as int] == keys[k as int]@);
        assert(!key_is_impossible(h, keys_model[k as int]));
        if !add_key(&mut gnf, transactions, keys[k].as_slice()) {
            proof {
                assert(!fits(encode_keys(h, timed(h), keys_model, (k + 1) as nat)));
                lemma_encode_keys(h, timed(h), keys_model, (k + 1) as nat, keys_model.len());
            }
            return Err(HistoryError::TooManyVariables);
        }
        k += 1;
    }
    let count = gnf.variables();
    proof {
        assert(count <= usize::MAX);
        lemma_encoding(h);
    }
    Ok(gnf)
}

} // verus!
