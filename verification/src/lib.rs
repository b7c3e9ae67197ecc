//! Regular-language inference from labelled examples.
//!
//! Given a prefix tree acceptor (APTA) whose states are labelled accepting,
//! rejecting, or unlabelled, the library searches for a small deterministic
//! finite automaton consistent with the labelling by greedily merging states.
//! The core is an incremental state partition (union-find over blocks with
//! per-block transition tables and a snapshot/rollback mechanism) together
//! with a recursive deterministic merge engine; two search drivers (RPNI and
//! exhaustive evidence-driven state merging) sit on top of it.

pub mod dfa;
pub mod dfa_state;
pub mod edsm;
pub mod merge;
pub mod rpni;
pub mod state_partition;

pub use dfa::DFA;
pub use dfa_state::State;
