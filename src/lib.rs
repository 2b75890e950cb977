//! Dependency-aware selection of mempool transactions for a weight-bounded block.
//!
//! Candidates live in a flat arena (`Vec<MempoolCsvRow>`) addressed by index.
//! - `store`: the candidate record and the model the contracts speak in
//!   (parent edges, ancestry, canonical chains, sums).
//! - `chain`: resolves each candidate's ancestor closure and sums fee and
//!   weight over it.
//! - `select`: the bookkeeping shared by both selectors.
//! - `feerate`: greedy selection by bundle fee rate.
//! - `knapsack`: 0/1 knapsack over quantized bundle weights.
//! - `laws`: properties that relate several of the above.

pub mod store;
pub mod chain;
pub mod select;
pub mod feerate;
pub mod knapsack;
pub mod laws;
