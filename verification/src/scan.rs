//! The reading of the store once the workload is over: every key that the
//! transactions name is read once, and the reads are added to the history
//! as one more transaction that runs after all others.

use crate::history::{
    results_model, GetOperation, Operation, OperationModel, StatusModel, TransactionCompleted,
    TransactionSpec, TransactionStatus,
};
use crate::keys::key_views;
use vstd::prelude::*;

verus! {

/// The time at which the store is taken to have been read: the latest
/// timestamp seen, times eleven, divided by ten and rounded down; 0 where
/// no timestamp was seen.
pub open spec fn reading_time(max_timestamp: Option<nat>) -> nat {
    match max_timestamp {
        Some(t) => t * 11 / 10,
        None => 0,
    }
}

/// The time at which the store is taken to have been read.
pub fn point_read_timestamp(max_timestamp: Option<u128>) -> (t: u128)
    requires
        max_timestamp matches Some(m) ==> m * 11 <= u128::MAX,
    ensures
        t == reading_time(
            match max_timestamp {
                Some(m) => Some(m as nat),
                None => None,
            },
        ),
{
    match max_timestamp {
        Some(m) => m * 11 / 10,
        None => 0,
    }
}

/// Whether the reading time of `max_timestamp` can be computed in the
/// machine's integers.
pub fn timestamp_in_range(max_timestamp: Option<u128>) -> (r: bool)
    ensures
        r == (max_timestamp matches Some(m) ==> m * 11 <= u128::MAX),
{
    match max_timestamp {
        Some(m) => m <= u128::MAX / 11,
        None => true,
    }
}

/// One read for each of `keys`, in order.
pub open spec fn reads_of_keys(keys: Seq<Seq<u8>>) -> Seq<OperationModel> {
    Seq::new(keys.len(), |i: int| OperationModel::Get { key: keys[i] })
}

/// The transaction that stands for the reading of the store: one read for
/// each of `keys`, in order, with `get_results` as what the reads returned,
/// started and ended at `timestamp`.
pub fn point_read_transaction(
    keys: Vec<Vec<u8>>,
    get_results: Vec<Option<Vec<u8>>>,
    timestamp: u128,
) -> (tx: (TransactionSpec, TransactionStatus))
    ensures
        tx.0@ == reads_of_keys(key_views(keys@)),
        tx.1@ == (StatusModel::Completed {
            start: timestamp as nat,
            end: timestamp as nat,
            get_results: results_model(get_results@),
        }),
{
    let mut point_read_tx_spec = TransactionSpec { ops: Vec::new() };
    let ghost all = key_views(keys@);
    for key in it: keys
        invariant
            it.seq() == keys@,
            all == key_views(keys@),
            point_read_tx_spec.ops.len() == it.index(),
            forall|j: int|
                0 <= j < it.index() ==> (#[trigger] point_read_tx_spec.ops[j])@
                    == (OperationModel::Get { key: all[j] }),
    {
        point_read_tx_spec.ops.push(Operation::Get(GetOperation { key }));
    }
    assert(point_read_tx_spec@ =~= reads_of_keys(all));
    let point_read_tx_result = TransactionStatus::Completed(
        TransactionCompleted { start: timestamp, end: timestamp, get_results },
    );
    (point_read_tx_spec, point_read_tx_result)
}

} // verus!
