//! The record of a workload's run, taken in record by record.

use crate::history::{
    results_model, StatusModel, TransactionCompleted, TransactionCrashed, TransactionEndOutput,
    TransactionOutput, TransactionStartOutput, TransactionStatus,
};
use vstd::prelude::*;

verus! {

/// Why a record cannot follow the records before it.
#[derive(Debug, Clone, Copy, PartialEq, Eq, Structural)]
pub enum TraceError {
    /// The record names a transaction that the workload did not specify.
    UnknownTransaction,
    /// The transaction was reported as starting twice.
    StartedTwice,
    /// The transaction was reported as ending before starting, by the order
    /// of the records.
    EndedBeforeStarting,
    /// The transaction was reported as ending before starting, by its
    /// timestamps.
    EndsBeforeStart,
    /// The transaction was reported as ending twice.
    EndedTwice,
}

/// How far each transaction got, and the latest timestamp seen.
#[derive(Debug)]
pub struct Trace {
    pub statuses: Vec<TransactionStatus>,
    pub max_timestamp: Option<u128>,
}

/// What a trace holds.
pub struct TraceModel {
    pub statuses: Seq<StatusModel>,
    pub max_timestamp: Option<nat>,
}

/// What a record holds.
pub enum OutputModel {
    Start { transaction_idx: nat, start: nat },
    End { transaction_idx: nat, end: nat, get_results: Seq<Option<Seq<u8>>> },
}

impl View for TransactionOutput {
    type V = OutputModel;

    open spec fn view(&self) -> OutputModel {
        match self {
            TransactionOutput::Start(s) => OutputModel::Start {
                transaction_idx: s.transaction_idx as nat,
                start: s.start as nat,
            },
            TransactionOutput::End(e) => OutputModel::End {
                transaction_idx: e.transaction_idx as nat,
                end: e.end as nat,
                get_results: results_model(e.get_results@),
            },
        }
    }
}

impl View for Trace {
    type V = TraceModel;

    open spec fn view(&self) -> TraceModel {
        TraceModel {
            statuses: Seq::new(self.statuses@.len(), |i: int| self.statuses@[i]@),
            max_timestamp: match self.max_timestamp {
                Some(t) => Some(t as nat),
                None => None,
            },
        }
    }
}

/// The transaction that a record is about.
pub open spec fn subject(output: OutputModel) -> nat {
    match output {
        OutputModel::Start { transaction_idx, .. } => transaction_idx,
        OutputModel::End { transaction_idx, .. } => transaction_idx,
    }
}

/// The timestamp of a record.
pub open spec fn timestamp(output: OutputModel) -> nat {
    match output {
        OutputModel::Start { start, .. } => start,
        OutputModel::End { end, .. } => end,
    }
}

/// The status of a transaction after a record about it, or why the record
/// cannot follow. A start takes a transaction that never ran to one that has
/// not ended; an end takes one that has not ended to one that has, unless
/// the end is earlier than the start.
pub open spec fn after(status: StatusModel, output: OutputModel) -> Result<StatusModel, TraceError> {
    match output {
        OutputModel::Start { start, .. } => match status {
            StatusModel::NeverRan => Ok(StatusModel::Crashed { start }),
            _ => Err(TraceError::StartedTwice),
        },
        OutputModel::End { end, get_results, .. } => match status {
            StatusModel::NeverRan => Err(TraceError::EndedBeforeStarting),
            StatusModel::Crashed { start } => if end < start {
                Err(TraceError::EndsBeforeStart)
            } else {
                Ok(StatusModel::Completed { start, end, get_results })
            },
            StatusModel::Completed { .. } => Err(TraceError::EndedTwice),
        },
    }
}

/// The later of the latest timestamp so far and `t`.
pub open spec fn latest(max: Option<nat>, t: nat) -> Option<nat> {
    match max {
        Some(m) => if t > m {
            Some(t)
        } else {
            Some(m)
        },
        None => Some(t),
    }
}

/// The trace after one more record, or why the record cannot follow.
pub open spec fn extended(trace: TraceModel, output: OutputModel) -> Result<TraceModel, TraceError> {
    if subject(output) >= trace.statuses.len() {
        Err(TraceError::UnknownTransaction)
    } else {
        match after(trace.statuses[subject(output) as int], output) {
            Ok(status) => Ok(
                TraceModel {
                    statuses: trace.statuses.update(subject(output) as int, status),
                    max_timestamp: latest(trace.max_timestamp, timestamp(output)),
                },
            ),
            Err(e) => Err(e),
        }
    }
}

impl Trace {
    /// The trace of `n` transactions before any record: none has run.
    pub fn new(n: usize) -> (trace: Trace)
        ensures
            trace@.statuses == Seq::new(n as nat, |i: int| StatusModel::NeverRan),
            trace@.max_timestamp is None,
    {
        let mut statuses: Vec<TransactionStatus> = Vec::new();
        let mut i: usize = 0;
        while i < n
            invariant
                i <= n,
                statuses.len() == i,
                forall|j: int| 0 <= j < i ==> (#[trigger] statuses[j])@ == StatusModel::NeverRan,
            decreases n - i,
        {
            statuses.push(TransactionStatus::NeverRan);
            i += 1;
        }
        let trace = Trace { statuses, max_timestamp: None };
        assert(trace@.statuses =~= Seq::new(n as nat, |i: int| StatusModel::NeverRan));
        trace
    }

    /// Takes in one record. On an error the statuses are as they were.
    pub fn record(&mut self, output: TransactionOutput) -> (r: Result<(), TraceError>)
        ensures
            match r {
                Ok(()) => extended(old(self)@, output@) == Ok::<TraceModel, TraceError>(
                    final(self)@,
                ),
                Err(e) => extended(old(self)@, output@) == Err::<TraceModel, TraceError>(e)
                    && final(self)@.statuses == old(self)@.statuses,
            },
    {
        let ghost before = self@;
        match output {
            TransactionOutput::Start(TransactionStartOutput { transaction_idx, start }) => {
                if transaction_idx >= self.statuses.len() {
                    return Err(TraceError::UnknownTransaction);
                }
                self.note(start);
                assert(before.statuses[transaction_idx as int]
                    == self.statuses[transaction_idx as int]@);
                match &self.statuses[transaction_idx] {
                    TransactionStatus::NeverRan => {
                        self.statuses.set(
                            transaction_idx,
                            TransactionStatus::Crashed(TransactionCrashed { start }),
                        );
                        assert(self@.statuses =~= before.statuses.update(
                            transaction_idx as int,
                            StatusModel::Crashed { start: start as nat },
                        ));
                        Ok(())
                    },
                    _ => Err(TraceError::StartedTwice),
                }
            },
            TransactionOutput::End(TransactionEndOutput { transaction_idx, end, get_results }) => {
                if transaction_idx >= self.statuses.len() {
                    return Err(TraceError::UnknownTransaction);
                }
                self.note(end);
                assert(before.statuses[transaction_idx as int]
                    == self.statuses[transaction_idx as int]@);
                match &self.statuses[transaction_idx] {
                    TransactionStatus::NeverRan => Err(TraceError::EndedBeforeStarting),
                    TransactionStatus::Crashed(TransactionCrashed { start }) => {
                        let start = *start;
                        if end < start {
                            return Err(TraceError::EndsBeforeStart);
                        }
                        self.statuses.set(
                            transaction_idx,
                            TransactionStatus::Completed(
                                TransactionCompleted { start, end, get_results },
                            ),
                        );
                        assert(self@.statuses =~= before.statuses.update(
                            transaction_idx as int,
                            StatusModel::Completed {
                                start: start as nat,
                                end: end as nat,
                                get_results: results_model(get_results@),
                            },
                        ));
                        Ok(())
                    },
                    TransactionStatus::Completed(_) => Err(TraceError::EndedTwice),
                }
            },
        }
    }

    /// Keeps the later of the latest timestamp so far and `t`.
    fn note(&mut self, t: u128)
        ensures
            final(self)@.statuses == old(self)@.statuses,
            final(self).statuses == old(self).statuses,
            final(self)@.max_timestamp == latest(old(self)@.max_timestamp, t as nat),
    {
        if let Some(old_max_timestamp) = self.max_timestamp {
            if t > old_max_timestamp {
                self.max_timestamp = Some(t);
            }
        } else {
            self.max_timestamp = Some(t);
        }
    }
}

} // verus!
