//! Phase-alignment similarity between batch-computing jobs: a job's sampled
//! series is cut into contiguous non-zero phases, and the phases of one job
//! are matched order-preservingly against a subset of the other's. The
//! combinatorial structure of that matching lives here, with its proofs.

pub mod coding;
pub mod phase_combis;
pub mod segment;

pub use coding::convert_to_coding;
pub use coding::try_convert_to_coding;
pub use coding::Record;
pub use phase_combis::Combination;
pub use phase_combis::PhaseCombinations;
pub use segment::detect_phases;
