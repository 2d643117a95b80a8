//! Whether a key-value store kept its promises through crashes and
//! concurrent transactions.
//!
//! The heart of the library decides whether a history of transactions can
//! be explained by an order that respects real time and in which every read
//! sees the last write before it: the history is encoded as clauses over
//! the edges of a graph that must stay free of cycles, for a solver to
//! settle. Around it stand the reference model of a workload of random
//! operations, and the checks of two counting workloads.
//!
//! - `formula`, `rewrite`, `normal`, `clause`, `expression`: propositional
//!   expressions and their conversion to conjunctive normal form.
//! - `gnf`: the document for the solver, and its text.
//! - `history`, `trace`, `keys`, `scan`: transactions, the record of a run,
//!   the keys it names, and the reading of the store at the end.
//! - `encoding`, `accesses`, `progress`, `solution`, `witness`, `encoder`:
//!   what the encoding of a history is, what holds of it, that its solutions
//!   are the orders that explain the history, and its computation.
//! - `solver`: the solver's answer.
//! - `ops`, `reference`, `tree_check`: the random workload.
//! - `counters`, `workload`, `recovery`, `util`: the counting workloads and
//!   what the workloads share.
//! - `series`, `ordered`, `text`: sums and products, ordered sequences, and
//!   numbers as text.

pub mod accesses;
pub mod clause;
pub mod counters;
pub mod encoder;
pub mod encoding;
pub mod expression;
pub mod formula;
pub mod gnf;
pub mod history;
pub mod keys;
pub mod normal;
pub mod ops;
pub mod ordered;
pub mod progress;
pub mod recovery;
pub mod reference;
pub mod rewrite;
pub mod scan;
pub mod series;
pub mod solution;
pub mod solver;
pub mod text;
pub mod trace;
pub mod tree_check;
pub mod util;
pub mod witness;
pub mod workload;
