use history_checker::encoder::{
    encode_history, has_fitting_results, has_value_from_nowhere, HistoryError,
};
use history_checker::history::{
    GetOperation, InsertOperation, Operation, RemoveOperation, TransactionCompleted,
    TransactionCrashed, TransactionEndOutput, TransactionOutput, TransactionSpec,
    TransactionStartOutput, TransactionStatus,
};
use history_checker::keys::{bytes_equal, bytes_less, is_named, named_keys};
use history_checker::scan::{point_read_timestamp, point_read_transaction, timestamp_in_range};
use history_checker::trace::{Trace, TraceError};

/// Whether the clauses of a document can be met with the switched edges
/// forming no cycle: every assignment is tried.
fn satisfiable(dimacs: &str) -> bool {
    let mut n_variables = 0usize;
    let mut n_nodes = 0usize;
    let mut clauses: Vec<Vec<i64>> = Vec::new();
    let mut edges: Vec<(usize, usize, usize)> = Vec::new();
    let mut acyclic: Vec<usize> = Vec::new();
    for line in dimacs.lines() {
        let words: Vec<&str> = line.split_whitespace().collect();
        match words.first() {
            None => {}
            Some(&"c") => {}
            Some(&"p") => n_variables = words[2].parse().unwrap(),
            Some(&"digraph") => n_nodes = words[1].parse().unwrap(),
            Some(&"edge") => edges.push((
                words[2].parse().unwrap(),
                words[3].parse().unwrap(),
                words[4].parse().unwrap(),
            )),
            Some(&"acyclic") => acyclic.push(words[2].parse().unwrap()),
            Some(_) => {
                let mut clause: Vec<i64> = words.iter().map(|w| w.parse().unwrap()).collect();
                assert_eq!(clause.pop(), Some(0));
                clauses.push(clause);
            }
        }
    }
    assert!(n_variables < 24);
    for assignment in 0u32..(1u32 << n_variables) {
        let value = |v: usize| assignment & (1 << (v - 1)) != 0;
        let met = clauses.iter().all(|clause| {
            clause
                .iter()
                .any(|l| if *l > 0 { value(*l as usize) } else { !value((-*l) as usize) })
        });
        if !met {
            continue;
        }
        let live: Vec<(usize, usize)> = edges
            .iter()
            .filter(|(_, _, v)| value(*v))
            .map(|(from, to, _)| (*from, *to))
            .collect();
        let mut gone = vec![false; n_nodes];
        let mut progress = true;
        while progress {
            progress = false;
            for node in 0..n_nodes {
                if !gone[node]
                    && !live
                        .iter()
                        .any(|(from, to)| *to == node && !gone[*from])
                {
                    gone[node] = true;
                    progress = true;
                }
            }
        }
        let no_cycle = gone.iter().all(|g| *g);
        if acyclic.iter().all(|v| value(*v) == no_cycle) {
            return true;
        }
    }
    false
}

/// The verdict on a history: whether it can be explained.
fn check_history(transactions: &[(TransactionSpec, TransactionStatus)]) -> bool {
    assert!(has_fitting_results(transactions));
    match encode_history(transactions) {
        Ok(gnf) => satisfiable(&gnf.to_dimacs()),
        Err(HistoryError::ValueFromNowhere) => false,
        Err(HistoryError::TooManyVariables) => panic!("too many variables"),
    }
}

fn get(key: &[u8]) -> Operation {
    Operation::Get(GetOperation { key: key.to_vec() })
}

fn insert(key: &[u8], value: &[u8]) -> Operation {
    Operation::Insert(InsertOperation {
        key: key.to_vec(),
        value: value.to_vec(),
    })
}

fn remove(key: &[u8]) -> Operation {
    Operation::Remove(RemoveOperation { key: key.to_vec() })
}

fn completed(
    ops: Vec<Operation>,
    start: u128,
    end: u128,
    get_results: Vec<Option<Vec<u8>>>,
) -> (TransactionSpec, TransactionStatus) {
    (
        TransactionSpec { ops },
        TransactionStatus::Completed(TransactionCompleted {
            start,
            end,
            get_results,
        }),
    )
}

#[test]
fn test_tx_cycle() {
    assert!(!check_history(&[
        (
            TransactionSpec {
                ops: vec![
                    Operation::Get(GetOperation { key: vec![] }),
                    Operation::Insert(InsertOperation {
                        key: vec![],
                        value: vec![1],
                    }),
                ],
            },
            TransactionStatus::Completed(TransactionCompleted {
                start: 0,
                end: 1,
                get_results: vec![Some(vec![2]), None],
            }),
        ),
        (
            TransactionSpec {
                ops: vec![
                    Operation::Get(GetOperation { key: vec![] }),
                    Operation::Insert(InsertOperation {
                        key: vec![],
                        value: vec![2],
                    }),
                ],
            },
            TransactionStatus::Completed(TransactionCompleted {
                start: 0,
                end: 1,
                get_results: vec![Some(vec![1]), None],
            }),
        ),
    ]));
}

#[test]
fn tx_cycle_document_is_exact() {
    let gnf = encode_history(&[
        completed(
            vec![get(&[]), insert(&[], &[1])],
            0,
            1,
            vec![Some(vec![2]), None],
        ),
        completed(
            vec![get(&[]), insert(&[], &[2])],
            0,
            1,
            vec![Some(vec![1]), None],
        ),
    ])
    .unwrap();
    assert_eq!(
        gnf.to_dimacs(),
        "p cnf 7 5\n\
         c Acyclic property\n\
         1 0\n\
         c Ordering of writes [T0, T1] and read T0 on []\n\
         3 0\n\
         2 4 0\n\
         c Ordering of writes [T0, T1] and read T1 on []\n\
         6 0\n\
         5 7 0\n\
         digraph 2 6 0\n\
         c R-W anti-dependency from T0 to T0 on []\n\
         edge 0 0 0 2\n\
         c W-R dependency from T1 to T0 on []\n\
         edge 0 1 0 3\n\
         c Candidate W-W anti-dependency from T0 to T1 on []\n\
         edge 0 0 1 4\n\
         c R-W anti-dependency from T1 to T1 on []\n\
         edge 0 1 1 5\n\
         c W-R dependency from T0 to T1 on []\n\
         edge 0 0 1 6\n\
         c Candidate W-W anti-dependency from T1 to T0 on []\n\
         edge 0 1 0 7\n\
         acyclic 0 1\n"
    );
}

#[test]
fn trivially_serializable() {
    // two transactions on disjoint keys, one after the other, and the
    // reading of the store that finds both values
    let history = [
        completed(vec![insert(b"a", b"1")], 1, 2, vec![None]),
        completed(vec![insert(b"b", b"2")], 3, 4, vec![None]),
        completed(
            vec![get(b"a"), get(b"b")],
            5,
            5,
            vec![Some(b"1".to_vec()), Some(b"2".to_vec())],
        ),
    ];
    assert!(check_history(&history));
    let text = encode_history(&history).unwrap().to_dimacs();
    assert_eq!(
        text,
        "p cnf 6 6\n\
         c Acyclic property\n\
         1 0\n\
         c Real-time edge from T0 to T1\n\
         2 0\n\
         c Real-time edge from T0 to T2\n\
         3 0\n\
         c Real-time edge from T1 to T2\n\
         4 0\n\
         c W-R dependency edge from T0 to T2 on [97]\n\
         5 0\n\
         c W-R dependency edge from T1 to T2 on [98]\n\
         6 0\n\
         digraph 3 5 0\n\
         c Real time ordering of T0 and T1\n\
         edge 0 0 1 2\n\
         c Real time ordering of T0 and T2\n\
         edge 0 0 2 3\n\
         c Real time ordering of T1 and T2\n\
         edge 0 1 2 4\n\
         c W-R dependency from T0 to T2 on [97]\n\
         edge 0 0 2 5\n\
         c W-R dependency from T1 to T2 on [98]\n\
         edge 0 1 2 6\n\
         acyclic 0 1\n"
    );
}

#[test]
fn read_observes_write() {
    assert!(check_history(&[
        completed(vec![insert(b"k", b"v")], 0, 1, vec![None]),
        completed(vec![get(b"k")], 1, 2, vec![Some(b"v".to_vec())]),
    ]));
}

#[test]
fn read_before_the_write_in_real_time_is_refused() {
    // the read ended before the write started, yet saw what it wrote
    assert!(!check_history(&[
        completed(vec![get(b"k")], 0, 1, vec![Some(b"v".to_vec())]),
        completed(vec![insert(b"k", b"v")], 2, 3, vec![None]),
    ]));
}

#[test]
fn read_from_nowhere() {
    let history = [completed(vec![get(b"k")], 0, 1, vec![Some(b"x".to_vec())])];
    assert!(has_value_from_nowhere(&history));
    assert_eq!(
        encode_history(&history).unwrap_err(),
        HistoryError::ValueFromNowhere
    );
    assert!(!check_history(&history));

    // a single write of another value
    let history = [
        completed(vec![insert(b"k", b"v")], 0, 1, vec![None]),
        completed(vec![get(b"k")], 2, 3, vec![Some(b"x".to_vec())]),
    ];
    assert_eq!(
        encode_history(&history).unwrap_err(),
        HistoryError::ValueFromNowhere
    );

    // a single removal and a read of a value
    let history = [
        completed(vec![remove(b"k")], 0, 1, vec![None]),
        completed(vec![get(b"k")], 2, 3, vec![Some(b"x".to_vec())]),
    ];
    assert_eq!(
        encode_history(&history).unwrap_err(),
        HistoryError::ValueFromNowhere
    );

    // several writes, none of the value read
    let history = [
        completed(vec![insert(b"k", b"v")], 0, 1, vec![None]),
        completed(vec![insert(b"k", b"w")], 0, 1, vec![None]),
        completed(vec![get(b"k")], 2, 3, vec![Some(b"x".to_vec())]),
    ];
    assert_eq!(
        encode_history(&history).unwrap_err(),
        HistoryError::ValueFromNowhere
    );

    // a read of nothing needs no write
    let history = [completed(vec![get(b"k")], 0, 1, vec![None])];
    assert!(!has_value_from_nowhere(&history));
    assert!(check_history(&history));
}

#[test]
fn reads_of_transactions_that_did_not_end_are_left_out() {
    // the read would be from nowhere, but its transaction crashed
    let history = [(
        TransactionSpec {
            ops: vec![get(b"k")],
        },
        TransactionStatus::Crashed(TransactionCrashed { start: 3 }),
    )];
    assert!(!has_value_from_nowhere(&history));
    assert!(check_history(&history));
}

#[test]
fn classic_cycle() {
    // T1 reads x = a and writes y = b; T2 reads y = b and writes x = a;
    // both ran at the same time: each must come after the other
    let history = [
        completed(
            vec![get(b"x"), insert(b"y", b"b")],
            0,
            10,
            vec![Some(b"a".to_vec()), None],
        ),
        completed(
            vec![get(b"y"), insert(b"x", b"a")],
            0,
            10,
            vec![Some(b"b".to_vec()), None],
        ),
    ];
    assert!(!has_value_from_nowhere(&history));
    assert!(!check_history(&history));
}

#[test]
fn crash_tolerance() {
    // the write of a crashed transaction need not have reached the store
    let history = [
        (
            TransactionSpec {
                ops: vec![insert(b"k", b"v")],
            },
            TransactionStatus::Crashed(TransactionCrashed { start: 0 }),
        ),
        completed(vec![get(b"k")], 1, 2, vec![None]),
    ];
    assert!(check_history(&history));
    let text = encode_history(&history).unwrap().to_dimacs();
    assert_eq!(
        text,
        "p cnf 2 2\n\
         c Acyclic property\n\
         1 0\n\
         c R-W anti-dependency edge from T1 to T0 on [107]\n\
         2 0\n\
         digraph 2 1 0\n\
         c R-W anti-dependeny from T1 to T0 on [107]\n\
         edge 0 1 0 2\n\
         acyclic 0 1\n"
    );
    // and it may have reached it
    let history = [
        (
            TransactionSpec {
                ops: vec![insert(b"k", b"v")],
            },
            TransactionStatus::Crashed(TransactionCrashed { start: 0 }),
        ),
        completed(vec![get(b"k")], 1, 2, vec![Some(b"v".to_vec())]),
    ];
    assert!(check_history(&history));
}

#[test]
fn several_writes_and_a_read_of_nothing() {
    // the read saw nothing although two transactions wrote: it came first,
    // which real time allows here
    let history = [
        completed(vec![insert(b"k", b"v")], 5, 6, vec![None]),
        completed(vec![insert(b"k", b"w")], 7, 8, vec![None]),
        completed(vec![get(b"k")], 0, 9, vec![None]),
    ];
    assert!(check_history(&history));
    let text = encode_history(&history).unwrap().to_dimacs();
    assert!(text.starts_with("p cnf 4 4\n"));
    assert!(text.contains("c R-W anti-dependency from T2 to T0 on [107]\nedge 0 2 0 3\n"));
    assert!(text.contains("c R-W anti-dependency from T2 to T1 on [107]\nedge 0 2 1 4\n"));
    assert!(text.contains("c Ordering of writes [T0, T1] and read T2 on [107]\n3 0\n4 0\n"));
    // and real time forbids it here
    let history = [
        completed(vec![insert(b"k", b"v")], 0, 1, vec![None]),
        completed(vec![insert(b"k", b"w")], 2, 3, vec![None]),
        completed(vec![get(b"k")], 4, 5, vec![None]),
    ];
    assert!(!check_history(&history));
    // unless the value was removed last
    let history = [
        completed(vec![insert(b"k", b"v")], 0, 1, vec![None]),
        completed(vec![remove(b"k")], 2, 3, vec![None]),
        completed(vec![get(b"k")], 4, 5, vec![None]),
    ];
    assert!(check_history(&history));
}

#[test]
fn several_writes_of_the_value_read() {
    let history = [
        completed(vec![insert(b"k", b"v")], 0, 1, vec![None]),
        completed(vec![insert(b"k", b"v")], 0, 1, vec![None]),
        completed(vec![insert(b"k", b"w")], 0, 1, vec![None]),
        completed(vec![get(b"k")], 2, 3, vec![Some(b"v".to_vec())]),
    ];
    assert!(check_history(&history));
    let text = encode_history(&history).unwrap().to_dimacs();
    assert!(text.contains("c Candidate R-W anti-dependency from T3 to T0 on [107]\n"));
    assert!(text.contains("c Candidate W-R dependency from T0 to T3 on [107]\n"));
    assert!(text.contains("c Candidate W-W anti-dependency from T1 to T0 on [107]\n"));
    // the overwriting write came last in real time: the read cannot have
    // seen an earlier one
    let history = [
        completed(vec![insert(b"k", b"v")], 0, 1, vec![None]),
        completed(vec![insert(b"k", b"w")], 2, 3, vec![None]),
        completed(vec![get(b"k")], 4, 5, vec![Some(b"v".to_vec())]),
    ];
    assert!(!check_history(&history));
}

#[test]
fn empty_history() {
    let gnf = encode_history(&[]).unwrap();
    assert_eq!(
        gnf.to_dimacs(),
        "p cnf 1 1\nc Acyclic property\n1 0\ndigraph 0 0 0\nacyclic 0 1\n"
    );
    assert!(check_history(&[]));
}

#[test]
fn results_must_fit_the_operations() {
    assert!(has_fitting_results(&[completed(
        vec![get(b"k"), insert(b"k", b"v")],
        0,
        1,
        vec![None, None]
    )]));
    assert!(!has_fitting_results(&[completed(
        vec![get(b"k"), insert(b"k", b"v")],
        0,
        1,
        vec![None]
    )]));
    assert!(has_fitting_results(&[(
        TransactionSpec {
            ops: vec![get(b"k")]
        },
        TransactionStatus::NeverRan
    )]));
}

#[test]
fn keys_are_ordered_and_distinct() {
    let specs = [
        TransactionSpec {
            ops: vec![get(b"b"), insert(b"a", b"1"), remove(b"ab")],
        },
        TransactionSpec {
            ops: vec![get(b""), get(b"b"), get(&[255]), get(b"a")],
        },
    ];
    let keys = named_keys(&specs);
    assert_eq!(
        keys,
        vec![
            b"".to_vec(),
            b"a".to_vec(),
            b"ab".to_vec(),
            b"b".to_vec(),
            vec![255]
        ]
    );
    assert!(is_named(&keys, b"ab"));
    assert!(!is_named(&keys, b"abc"));
    assert!(bytes_less(b"a", b"ab"));
    assert!(bytes_less(b"ab", b"b"));
    assert!(!bytes_less(b"b", b"ab"));
    assert!(!bytes_less(b"a", b"a"));
    assert!(bytes_less(b"", b"a"));
    assert!(bytes_equal(b"ab", b"ab"));
    assert!(!bytes_equal(b"ab", b"a"));
    // the order is that of the byte strings themselves
    let mut sorted = keys.clone();
    sorted.sort();
    assert_eq!(sorted, keys);
}

#[test]
fn key_ex_nihilo() {
    // the history names key a alone; the store holds key b
    let specs = [TransactionSpec {
        ops: vec![insert(b"a", b"1")],
    }];
    let keys = named_keys(&specs);
    assert!(is_named(&keys, b"a"));
    assert!(!is_named(&keys, b"b"));
}

#[test]
fn reading_of_the_store() {
    assert_eq!(point_read_timestamp(None), 0);
    assert_eq!(point_read_timestamp(Some(0)), 0);
    assert_eq!(point_read_timestamp(Some(10)), 11);
    assert_eq!(point_read_timestamp(Some(19)), 20);
    assert_eq!(point_read_timestamp(Some(1_000_000_007)), 1_100_000_007);
    assert!(timestamp_in_range(Some(u128::MAX / 11)));
    assert!(!timestamp_in_range(Some(u128::MAX / 11 + 1)));
    assert!(timestamp_in_range(None));
    let (spec, status) = point_read_transaction(
        vec![b"a".to_vec(), b"b".to_vec()],
        vec![Some(b"1".to_vec()), None],
        11,
    );
    assert_eq!(spec.ops.len(), 2);
    assert!(matches!(&spec.ops[0], Operation::Get(GetOperation { key }) if key == b"a"));
    assert!(matches!(&spec.ops[1], Operation::Get(GetOperation { key }) if key == b"b"));
    match status {
        TransactionStatus::Completed(c) => {
            assert_eq!(c.start, 11);
            assert_eq!(c.end, 11);
            assert_eq!(c.get_results, vec![Some(b"1".to_vec()), None]);
        }
        _ => panic!("the reading of the store has ended"),
    }
    assert_eq!(spec.ops[0].key(), b"a");
    assert_eq!(insert(b"k", b"v").key(), b"k");
    assert_eq!(remove(b"r").key(), b"r");
}

#[test]
fn records_are_taken_in_order() {
    let start = |transaction_idx, start| {
        TransactionOutput::Start(TransactionStartOutput {
            transaction_idx,
            start,
        })
    };
    let end = |transaction_idx, end| {
        TransactionOutput::End(TransactionEndOutput {
            transaction_idx,
            end,
            get_results: vec![None],
        })
    };
    let mut trace = Trace::new(3);
    assert_eq!(trace.statuses.len(), 3);
    assert!(trace
        .statuses
        .iter()
        .all(|s| matches!(s, TransactionStatus::NeverRan)));
    assert_eq!(trace.max_timestamp, None);
    assert_eq!(trace.record(start(1, 7)), Ok(()));
    assert!(matches!(
        trace.statuses[1],
        TransactionStatus::Crashed(TransactionCrashed { start: 7 })
    ));
    assert_eq!(trace.max_timestamp, Some(7));
    assert_eq!(trace.record(start(0, 3)), Ok(()));
    assert_eq!(trace.max_timestamp, Some(7));
    assert_eq!(trace.record(end(1, 9)), Ok(()));
    assert!(matches!(
        &trace.statuses[1],
        TransactionStatus::Completed(TransactionCompleted { start: 7, end: 9, get_results })
            if *get_results == vec![None]
    ));
    assert_eq!(trace.max_timestamp, Some(9));
    // an end at the time of the start is in order
    assert_eq!(trace.record(end(0, 3)), Ok(()));

    assert_eq!(trace.record(start(1, 10)), Err(TraceError::StartedTwice));
    assert_eq!(trace.record(end(1, 10)), Err(TraceError::EndedTwice));
    assert_eq!(trace.record(end(2, 10)), Err(TraceError::EndedBeforeStarting));
    assert_eq!(trace.record(start(2, 20)), Ok(()));
    assert_eq!(trace.record(start(2, 21)), Err(TraceError::StartedTwice));
    assert_eq!(trace.record(end(2, 19)), Err(TraceError::EndsBeforeStart));
    assert!(matches!(
        trace.statuses[2],
        TransactionStatus::Crashed(TransactionCrashed { start: 20 })
    ));
    assert_eq!(trace.record(start(3, 1)), Err(TraceError::UnknownTransaction));
    assert_eq!(trace.record(end(3, 1)), Err(TraceError::UnknownTransaction));
}

/// A small history made from `seed`: up to three transactions on two keys.
fn generated_history(seed: &mut u64) -> Vec<(TransactionSpec, TransactionStatus)> {
    let mut draw = |bound: u64| {
        *seed = seed
            .wrapping_mul(6364136223846793005)
            .wrapping_add(1442695040888963407);
        (*seed >> 33) % bound
    };
    let keys: [&[u8]; 2] = [b"x", b"y"];
    let values: [Option<&[u8]>; 3] = [None, Some(b"1"), Some(b"2")];
    let count = 2 + draw(2) as usize;
    let mut history = Vec::new();
    for _ in 0..count {
        let mut ops = Vec::new();
        let mut get_results = Vec::new();
        let first_key = draw(2) as usize;
        let key_count = 1 + draw(2) as usize;
        for k in 0..key_count {
            let key = keys[(first_key + k) % 2];
            match draw(3) {
                0 => {
                    ops.push(get(key));
                    get_results.push(values[draw(3) as usize].map(|v| v.to_vec()));
                }
                1 => {
                    ops.push(insert(key, values[1 + draw(2) as usize].unwrap()));
                    get_results.push(None);
                }
                _ => {
                    ops.push(remove(key));
                    get_results.push(None);
                }
            }
        }
        let start = draw(6) as u128;
        let end = start + draw(4) as u128;
        let status = match draw(6) {
            0 => TransactionStatus::NeverRan,
            1 => TransactionStatus::Crashed(TransactionCrashed { start }),
            _ => TransactionStatus::Completed(TransactionCompleted {
                start,
                end,
                get_results,
            }),
        };
        history.push((TransactionSpec { ops }, status));
    }
    history
}

/// Whether the transactions can be put in an order, given as the rank of
/// each, that respects real time and in which every read saw the last write
/// before it, or nothing where it came before the writes.
fn explained_by(history: &[(TransactionSpec, TransactionStatus)], rank: &[usize]) -> bool {
    for (i, (_, first)) in history.iter().enumerate() {
        for (j, (_, second)) in history.iter().enumerate() {
            if let (TransactionStatus::Completed(a), TransactionStatus::Completed(b)) =
                (first, second)
            {
                if b.start > a.end && rank[i] >= rank[j] {
                    return false;
                }
            }
        }
    }
    for key in [&b"x"[..], b"y"] {
        let mut writes: Vec<(usize, Option<Vec<u8>>)> = Vec::new();
        let mut reads: Vec<(usize, Option<Vec<u8>>)> = Vec::new();
        for (t, (spec, status)) in history.iter().enumerate() {
            for (o, op) in spec.ops.iter().enumerate() {
                if op.key() != key {
                    continue;
                }
                match op {
                    Operation::Get(_) => {
                        if let TransactionStatus::Completed(c) = status {
                            reads.push((t, c.get_results[o].clone()));
                        }
                    }
                    Operation::Insert(InsertOperation { value, .. }) => {
                        writes.push((t, Some(value.clone())))
                    }
                    Operation::Remove(_) => writes.push((t, None)),
                }
            }
        }
        for (reader, seen) in &reads {
            let after_a_write = writes.iter().any(|(writer, written)| {
                written == seen
                    && rank[*writer] < rank[*reader]
                    && writes.iter().all(|(other, _)| {
                        other == writer
                            || rank[*other] < rank[*writer]
                            || rank[*reader] < rank[*other]
                    })
            });
            let before_all = seen.is_none()
                && writes
                    .iter()
                    .all(|(writer, _)| rank[*reader] < rank[*writer]);
            let single_removal = writes.len() == 1 && writes[0].1.is_none() && seen.is_none();
            if !(after_a_write || before_all || single_removal) {
                return false;
            }
        }
    }
    true
}

#[test]
fn verdicts_are_those_of_the_orders() {
    let orders: Vec<Vec<usize>> = vec![
        vec![0, 1, 2],
        vec![0, 2, 1],
        vec![1, 0, 2],
        vec![1, 2, 0],
        vec![2, 0, 1],
        vec![2, 1, 0],
    ];
    let mut seed = 2024u64;
    let mut accepted = 0;
    let mut refused = 0;
    let mut tried = 0;
    while tried < 120 {
        let history = generated_history(&mut seed);
        let by_orders = orders.iter().any(|rank| explained_by(&history, rank));
        let verdict = match encode_history(&history) {
            Ok(gnf) => {
                if gnf.variables() > 14 {
                    continue;
                }
                satisfiable(&gnf.to_dimacs())
            }
            Err(HistoryError::ValueFromNowhere) => false,
            Err(HistoryError::TooManyVariables) => panic!("too many variables"),
        };
        assert_eq!(verdict, by_orders, "{:?}", history);
        if verdict {
            accepted += 1;
        } else {
            refused += 1;
        }
        tried += 1;
    }
    assert!(accepted > 10 && refused > 10);
}
