//! A self-stabilizing population protocol that elects a leader among `n`
//! anonymous agents and then assigns every agent a distinct rank in `[1, n]`
//! through repeated pairwise interactions.
//!
//! The crate holds the protocol core: the per-agent state machine, the
//! leader-election tournament, the phase range table, the ranking rules and
//! the epidemic reset that recovers from corrupted global state. The random
//! scheduler and the experiment driver live outside the library and only call
//! [`protocol::Protocol::update`] on pairs of distinct indices.

pub mod laws;
pub mod leader_election;
pub mod phases;
pub mod protocol;
pub mod state;
