//! Transactions as a workload specifies them and as it reports their runs.

use vstd::prelude::*;

verus! {

/// The segment size with which the workloads and their checkers open the
/// store.
pub const SEGMENT_SIZE: usize = 256;

/// The cache capacity with which the workloads and their checkers open the
/// store.
pub const CACHE_CAPACITY: usize = 256;

/// Reads the value under a key.
#[derive(Debug)]
pub struct GetOperation {
    pub key: Vec<u8>,
}

/// Puts a value under a key.
#[derive(Debug)]
pub struct InsertOperation {
    pub key: Vec<u8>,
    pub value: Vec<u8>,
}

/// Removes the value under a key.
#[derive(Debug)]
pub struct RemoveOperation {
    pub key: Vec<u8>,
}

/// One operation of a transaction.
#[derive(Debug)]
pub enum Operation {
    Get(GetOperation),
    Insert(InsertOperation),
    Remove(RemoveOperation),
}

/// What an operation holds.
pub enum OperationModel {
    Get { key: Seq<u8> },
    Insert { key: Seq<u8>, value: Seq<u8> },
    Remove { key: Seq<u8> },
}

impl View for Operation {
    type V = OperationModel;

    open spec fn view(&self) -> OperationModel {
        match self {
            Operation::Get(op) => OperationModel::Get { key: op.key@ },
            Operation::Insert(op) => OperationModel::Insert { key: op.key@, value: op.value@ },
            Operation::Remove(op) => OperationModel::Remove { key: op.key@ },
        }
    }
}

/// The key that an operation names.
pub open spec fn key_of(op: OperationModel) -> Seq<u8> {
    match op {
        OperationModel::Get { key } => key,
        OperationModel::Insert { key, .. } => key,
        OperationModel::Remove { key } => key,
    }
}

impl Operation {
    /// The key that the operation names.
    pub fn key(&self) -> (key: &[u8])
        ensures
            key@ == key_of(self@),
    {
        match self {
            Operation::Get(GetOperation { key }) => key.as_slice(),
            Operation::Insert(InsertOperation { key, .. }) => key.as_slice(),
            Operation::Remove(RemoveOperation { key }) => key.as_slice(),
        }
    }
}

/// The operations of a transaction, in order.
#[derive(Debug)]
pub struct TransactionSpec {
    pub ops: Vec<Operation>,
}

impl View for TransactionSpec {
    type V = Seq<OperationModel>;

    open spec fn view(&self) -> Seq<OperationModel> {
        Seq::new(self.ops@.len(), |i: int| self.ops@[i]@)
    }
}

/// The record that a transaction has started.
pub struct TransactionStartOutput {
    pub transaction_idx: usize,
    pub start: u128,
}

/// The record that a transaction has ended, with what its reads returned:
/// one place for each operation, filled for the reads.
pub struct TransactionEndOutput {
    pub transaction_idx: usize,
    pub end: u128,
    pub get_results: Vec<Option<Vec<u8>>>,
}

/// A record of a workload's run.
pub enum TransactionOutput {
    Start(TransactionStartOutput),
    End(TransactionEndOutput),
}

/// A transaction that started and was not seen to end.
#[derive(Debug)]
pub struct TransactionCrashed {
    pub start: u128,
}

/// A transaction that ran to its end.
#[derive(Debug)]
pub struct TransactionCompleted {
    pub start: u128,
    pub end: u128,
    pub get_results: Vec<Option<Vec<u8>>>,
}

/// How far a transaction got.
#[derive(Debug)]
pub enum TransactionStatus {
    NeverRan,
    Crashed(TransactionCrashed),
    Completed(TransactionCompleted),
}

/// What a value read or written holds: the bytes, or nothing.
pub open spec fn value_model(v: Option<Vec<u8>>) -> Option<Seq<u8>> {
    match v {
        Some(bytes) => Some(bytes@),
        None => None,
    }
}

/// What the results of a transaction's reads hold.
pub open spec fn results_model(rs: Seq<Option<Vec<u8>>>) -> Seq<Option<Seq<u8>>> {
    Seq::new(rs.len(), |i: int| value_model(rs[i]))
}

/// What a status holds.
pub enum StatusModel {
    NeverRan,
    Crashed { start: nat },
    Completed { start: nat, end: nat, get_results: Seq<Option<Seq<u8>>> },
}

impl View for TransactionStatus {
    type V = StatusModel;

    open spec fn view(&self) -> StatusModel {
        match self {
            TransactionStatus::NeverRan => StatusModel::NeverRan,
            TransactionStatus::Crashed(c) => StatusModel::Crashed { start: c.start as nat },
            TransactionStatus::Completed(c) => StatusModel::Completed {
                start: c.start as nat,
                end: c.end as nat,
                get_results: results_model(c.get_results@),
            },
        }
    }
}

/// A transaction of a history: its operations and how far it got.
pub struct TransactionModel {
    pub ops: Seq<OperationModel>,
    pub status: StatusModel,
}

/// What a history holds: its transactions, in order.
pub open spec fn history_model(h: Seq<(TransactionSpec, TransactionStatus)>) -> Seq<
    TransactionModel,
> {
    Seq::new(h.len(), |i: int| TransactionModel { ops: h[i].0@, status: h[i].1@ })
}

/// Each completed transaction reports one result for each of its operations.
pub open spec fn results_fit(h: Seq<TransactionModel>) -> bool {
    forall|i: int|
        0 <= i < h.len() ==> match (#[trigger] h[i]).status {
            StatusModel::Completed { get_results, .. } => get_results.len() == h[i].ops.len(),
            _ => true,
        }
}

} // verus!
