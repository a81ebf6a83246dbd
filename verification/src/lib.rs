//! Leader confirmation for a proposer/voter DAG blockchain.
//!
//! A fixed set of parallel voter chains cast votes on proposer blocks at
//! successive levels. The confirmation engine turns the observed votes, with
//! their depths, into a lower confidence bound on the irrevocable support of
//! each candidate block, and declares a level's leader only when no adversary
//! of the assumed power could still overturn the outcome. The ledger index
//! records those verdicts together with the rest of the consensus snapshot.
//!
//! All probabilities, the quantile and the adversary power ratio are held in
//! fixed point, as parts per billion, so that every comparison the decision
//! rests on is exact and reproducible.

pub mod confirm;
pub mod fixed;
pub mod hash;
pub mod laws;
pub mod ledger;

pub use confirm::Vote;
pub use confirm::confirm_leader;
pub use hash::H256;
pub use ledger::LedgerIndex;
