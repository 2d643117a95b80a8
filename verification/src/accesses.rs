//! What the reads and writes of a history are, said of the history itself.

use crate::encoding::{
    key_is_impossible, reads_of, specs_of, tx_reads, tx_writes, unexplained, value_from_nowhere,
    writes_of, Access,
};
use crate::history::{key_of, OperationModel, StatusModel, TransactionModel};
use crate::keys::{all_keys, lemma_all_keys, names};
use vstd::prelude::*;

verus! {

/// Operation `o` of transaction `t` is a read of `key` that returned
/// `value`, in a transaction that ran to its end.
pub open spec fn is_read(
    h: Seq<TransactionModel>,
    t: int,
    o: int,
    key: Seq<u8>,
    value: Option<Seq<u8>>,
) -> bool {
    &&& 0 <= t < h.len()
    &&& 0 <= o < h[t].ops.len()
    &&& h[t].ops[o] == OperationModel::Get { key }
    &&& match h[t].status {
        StatusModel::Completed { get_results, .. } => get_results[o] == value,
        _ => false,
    }
}

/// Operation `o` of transaction `t` writes `value` under `key`, or removes
/// what is under `key` where `value` is nothing; however far the
/// transaction got.
pub open spec fn is_write(
    h: Seq<TransactionModel>,
    t: int,
    o: int,
    key: Seq<u8>,
    value: Option<Seq<u8>>,
) -> bool {
    &&& 0 <= t < h.len()
    &&& 0 <= o < h[t].ops.len()
    &&& match value {
        Some(v) => h[t].ops[o] == OperationModel::Insert { key, value: v },
        None => h[t].ops[o] == OperationModel::Remove { key },
    }
}

/// Some read of the history that returned a value was of a key under which
/// no operation of the history writes that value.
pub open spec fn reads_what_nobody_wrote(h: Seq<TransactionModel>) -> bool {
    exists|t: int, o: int, key: Seq<u8>, v: Seq<u8>|
        #![trigger is_read(h, t, o, key, Some(v))]
        is_read(h, t, o, key, Some(v)) && forall|t2: int, o2: int|
            !#[trigger] is_write(h, t2, o2, key, Some(v))
}

/// The reads of one transaction are its reads.
proof fn lemma_tx_reads(h: Seq<TransactionModel>, t: int, key: Seq<u8>, n: nat)
    requires
        0 <= t < h.len(),
        n <= h[t].ops.len(),
    ensures
        forall|a: Access|
            #[trigger] tx_reads(h[t], t as nat, key, n).contains(a) <==> (a.tx == t && exists|
                o: int,
            | 0 <= o < n && #[trigger] is_read(h, t, o, key, a.value)),
    decreases n,
{
    let now = tx_reads(h[t], t as nat, key, n);
    if n > 0 {
        let prev = tx_reads(h[t], t as nat, key, (n - 1) as nat);
        lemma_tx_reads(h, t, key, (n - 1) as nat);
        assert forall|a: Access|
            #[trigger] now.contains(a) <==> (a.tx == t && exists|o: int|
                0 <= o < n && #[trigger] is_read(h, t, o, key, a.value)) by {
            if now.contains(a) {
                let i = choose|i: int| 0 <= i < now.len() && now[i] == a;
                if i < prev.len() {
                    assert(prev[i] == a);
                    assert(prev.contains(a));
                    let o = choose|o: int| 0 <= o < n - 1 && #[trigger] is_read(h, t, o, key, a.value);
                    assert(0 <= o < n && is_read(h, t, o, key, a.value));
                } else {
                    assert(is_read(h, t, n - 1, key, a.value));
                }
            }
            if a.tx == t && exists|o: int| 0 <= o < n && #[trigger] is_read(h, t, o, key, a.value) {
                let o = choose|o: int| 0 <= o < n && #[trigger] is_read(h, t, o, key, a.value);
                if o < n - 1 {
                    assert(prev.contains(a));
                    let i = choose|i: int| 0 <= i < prev.len() && prev[i] == a;
                    assert(now[i] == a);
                } else {
                    assert(now[now.len() - 1] == a);
                }
            }
        }
    }
}

/// The writes of one transaction are its writes.
proof fn lemma_tx_writes(h: Seq<TransactionModel>, t: int, key: Seq<u8>, n: nat)
    requires
        0 <= t < h.len(),
        n <= h[t].ops.len(),
    ensures
        forall|a: Access|
            #[trigger] tx_writes(h[t], t as nat, key, n).contains(a) <==> (a.tx == t && exists|
                o: int,
            | 0 <= o < n && #[trigger] is_write(h, t, o, key, a.value)),
    decreases n,
{
    let now = tx_writes(h[t], t as nat, key, n);
    if n > 0 {
        let prev = tx_writes(h[t], t as nat, key, (n - 1) as nat);
        lemma_tx_writes(h, t, key, (n - 1) as nat);
        assert forall|a: Access|
            #[trigger] now.contains(a) <==> (a.tx == t && exists|o: int|
                0 <= o < n && #[trigger] is_write(h, t, o, key, a.value)) by {
            if now.contains(a) {
                let i = choose|i: int| 0 <= i < now.len() && now[i] == a;
                if i < prev.len() {
                    assert(prev[i] == a);
                    assert(prev.contains(a));
                    let o = choose|o: int|
                        0 <= o < n - 1 && #[trigger] is_write(h, t, o, key, a.value);
                    assert(0 <= o < n && is_write(h, t, o, key, a.value));
                } else {
                    assert(is_write(h, t, n - 1, key, a.value));
                }
            }
            if a.tx == t && exists|o: int| 0 <= o < n && #[trigger] is_write(h, t, o, key, a.value) {
                let o = choose|o: int| 0 <= o < n && #[trigger] is_write(h, t, o, key, a.value);
                if o < n - 1 {
                    assert(prev.contains(a));
                    let i = choose|i: int| 0 <= i < prev.len() && prev[i] == a;
                    assert(now[i] == a);
                } else {
                    assert(now[now.len() - 1] == a);
                }
            }
        }
    }
}

/// The reads of a key are the reads of the key by the transactions that ran
/// to their end, each with what it returned.
pub proof fn lemma_reads_of(h: Seq<TransactionModel>, key: Seq<u8>, m: nat)
    requires
        m <= h.len(),
    ensures
        forall|a: Access|
            #[trigger] reads_of(h, key, m).contains(a) <==> exists|o: int|
                a.tx < m && #[trigger] is_read(h, a.tx as int, o, key, a.value),
    decreases m,
{
    let now = reads_of(h, key, m);
    if m > 0 {
        let prev = reads_of(h, key, (m - 1) as nat);
        let last = tx_reads(h[m - 1], (m - 1) as nat, key, h[m - 1].ops.len());
        lemma_reads_of(h, key, (m - 1) as nat);
        lemma_tx_reads(h, m - 1, key, h[m - 1].ops.len());
        assert forall|a: Access|
            #[trigger] now.contains(a) <==> exists|o: int|
                a.tx < m && #[trigger] is_read(h, a.tx as int, o, key, a.value) by {
            if now.contains(a) {
                let i = choose|i: int| 0 <= i < now.len() && now[i] == a;
                if i < prev.len() {
                    assert(prev[i] == a);
                    assert(prev.contains(a));
                    let o = choose|o: int|
                        a.tx < m - 1 && #[trigger] is_read(h, a.tx as int, o, key, a.value);
                    assert(a.tx < m && is_read(h, a.tx as int, o, key, a.value));
                } else {
                    assert(last[i - prev.len()] == a);
                    assert(last.contains(a));
                    let o = choose|o: int|
                        0 <= o < h[m - 1].ops.len() && #[trigger] is_read(h, m - 1, o, key, a.value);
                    assert(a.tx < m && is_read(h, a.tx as int, o, key, a.value));
                }
            }
            if exists|o: int| a.tx < m && #[trigger] is_read(h, a.tx as int, o, key, a.value) {
                let o = choose|o: int|
                    a.tx < m && #[trigger] is_read(h, a.tx as int, o, key, a.value);
                if a.tx < m - 1 {
                    assert(prev.contains(a));
                    let i = choose|i: int| 0 <= i < prev.len() && prev[i] == a;
                    assert(now[i] == a);
                } else {
                    assert(is_read(h, m - 1, o, key, a.value));
                    assert(last.contains(a));
                    let i = choose|i: int| 0 <= i < last.len() && last[i] == a;
                    assert(now[prev.len() + i] == a);
                }
            }
        }
    }
}

/// The writes of a key are the writes and removals of the key by all
/// transactions.
pub proof fn lemma_writes_of(h: Seq<TransactionModel>, key: Seq<u8>, m: nat)
    requires
        m <= h.len(),
    ensures
        forall|a: Access|
            #[trigger] writes_of(h, key, m).contains(a) <==> exists|o: int|
                a.tx < m && #[trigger] is_write(h, a.tx as int, o, key, a.value),
    decreases m,
{
    let now = writes_of(h, key, m);
    if m > 0 {
        let prev = writes_of(h, key, (m - 1) as nat);
        let last = tx_writes(h[m - 1], (m - 1) as nat, key, h[m - 1].ops.len());
        lemma_writes_of(h, key, (m - 1) as nat);
        lemma_tx_writes(h, m - 1, key, h[m - 1].ops.len());
        assert forall|a: Access|
            #[trigger] now.contains(a) <==> exists|o: int|
                a.tx < m && #[trigger] is_write(h, a.tx as int, o, key, a.value) by {
            if now.contains(a) {
                let i = choose|i: int| 0 <= i < now.len() && now[i] == a;
                if i < prev.len() {
                    assert(prev[i] == a);
                    assert(prev.contains(a));
                    let o = choose|o: int|
                        a.tx < m - 1 && #[trigger] is_write(h, a.tx as int, o, key, a.value);
                    assert(a.tx < m && is_write(h, a.tx as int, o, key, a.value));
                } else {
                    assert(last[i - prev.len()] == a);
                    assert(last.contains(a));
                    let o = choose|o: int|
                        0 <= o < h[m - 1].ops.len() && #[trigger] is_write(
                            h,
                            m - 1,
                            o,
                            key,
                            a.value,
                        );
                    assert(a.tx < m && is_write(h, a.tx as int, o, key, a.value));
                }
            }
            if exists|o: int| a.tx < m && #[trigger] is_write(h, a.tx as int, o, key, a.value) {
                let o = choose|o: int|
                    a.tx < m && #[trigger] is_write(h, a.tx as int, o, key, a.value);
                if a.tx < m - 1 {
                    assert(prev.contains(a));
                    let i = choose|i: int| 0 <= i < prev.len() && prev[i] == a;
                    assert(now[i] == a);
                } else {
                    assert(is_write(h, m - 1, o, key, a.value));
                    assert(last.contains(a));
                    let i = choose|i: int| 0 <= i < last.len() && last[i] == a;
                    assert(now[prev.len() + i] == a);
                }
            }
        }
    }
}

/// A history has a value from nowhere exactly when one of its reads, in a
/// transaction that ran to its end, returned a value that no operation of
/// the history writes under the key read.
pub proof fn lemma_value_from_nowhere(h: Seq<TransactionModel>)
    ensures
        value_from_nowhere(h) <==> reads_what_nobody_wrote(h),
{
    let keys = all_keys(specs_of(h));
    lemma_all_keys(specs_of(h));
    if value_from_nowhere(h) {
        let k = choose|k: int| 0 <= k < keys.len() && key_is_impossible(h, #[trigger] keys[k]);
        let key = keys[k];
        let reads = reads_of(h, key, h.len());
        let writes = writes_of(h, key, h.len());
        let i = choose|i: int| 0 <= i < reads.len() && unexplained(#[trigger] reads[i], writes);
        let read = reads[i];
        lemma_reads_of(h, key, h.len());
        lemma_writes_of(h, key, h.len());
        assert(reads.contains(read));
        let o = choose|o: int|
            read.tx < h.len() && #[trigger] is_read(h, read.tx as int, o, key, read.value);
        let v = read.value->Some_0;
        assert(is_read(h, read.tx as int, o, key, Some(v)));
        assert forall|t2: int, o2: int| !#[trigger] is_write(h, t2, o2, key, Some(v)) by {
            if is_write(h, t2, o2, key, Some(v)) {
                let a = Access { tx: t2 as nat, value: Some(v) };
                assert(is_write(h, a.tx as int, o2, key, a.value));
                assert(writes.contains(a));
                let j = choose|j: int| 0 <= j < writes.len() && writes[j] == a;
                assert(writes[j].value == read.value);
            }
        }
    }
    if reads_what_nobody_wrote(h) {
        let (t, o, key, v) = choose|t: int, o: int, key: Seq<u8>, v: Seq<u8>|
            #![trigger is_read(h, t, o, key, Some(v))]
            is_read(h, t, o, key, Some(v)) && forall|t2: int, o2: int|
                !#[trigger] is_write(h, t2, o2, key, Some(v));
        let reads = reads_of(h, key, h.len());
        let writes = writes_of(h, key, h.len());
        lemma_reads_of(h, key, h.len());
        lemma_writes_of(h, key, h.len());
        let read = Access { tx: t as nat, value: Some(v) };
        assert(is_read(h, read.tx as int, o, key, read.value));
        assert(reads.contains(read));
        let i = choose|i: int| 0 <= i < reads.len() && reads[i] == read;
        assert forall|j: int| 0 <= j < writes.len() implies (#[trigger] writes[j]).value
            != read.value by {
            if writes[j].value == read.value {
                assert(writes.contains(writes[j]));
                let o2 = choose|o2: int|
                    writes[j].tx < h.len() && #[trigger] is_write(
                        h,
                        writes[j].tx as int,
                        o2,
                        key,
                        writes[j].value,
                    );
                assert(is_write(h, writes[j].tx as int, o2, key, Some(v)));
            }
        }
        assert(unexplained(reads[i], writes));
        assert(key_is_impossible(h, key));
        // the key is among the keys of the history, as the read names it
        assert(specs_of(h)[t][o] == h[t].ops[o]);
        assert(key_of(specs_of(h)[t][o]) == key);
        assert(names(specs_of(h), key));
        assert(keys.contains(key));
        let k = choose|k: int| 0 <= k < keys.len() && keys[k] == key;
        assert(key_is_impossible(h, keys[k]));
    }
}

} // verus!
