//! The per-agent protocol state: a closed set of six variants, each with the
//! payload it needs, plus the small observers and payload updates the
//! dispatcher works with.

use vstd::prelude::*;

use crate::leader_election::LEState;

verus! {

/// Waiting-countdown factor: an elected leader pauses for
/// `C_WAIT * num_phases` heads-meetings with an authority before seeding
/// itself as rank 1.
pub const C_WAIT: usize = 2;

/// Liveness factor: a liveness counter is refreshed to
/// `C_LIVE * num_phases`; exhaustion triggers a reset.
pub const C_LIVE: usize = 4;

/// Reset factor: a reset wave starts with a countdown of
/// `C_RESET * num_phases`.
pub const C_RESET: usize = 4;

/// Cool-down factor: a dormant agent waits `C_DELAY * num_phases`
/// interactions before rejoining leader election.
pub const C_DELAY: usize = 4;

/// One agent's protocol state.
#[derive(Debug, Clone, Copy, PartialEq, Eq, Structural)]
pub enum State {
    /// Finalized numeric rank in `[1, n]`.
    Rank(usize),
    /// Still contending in the leader-election tournament.
    LE(LEState),
    /// Elected leader pausing: (countdown, liveness counter).
    Waiting(usize, usize),
    /// Authority handing out one phase's rank range: (phase, liveness counter).
    Phase(usize, usize),
    /// Spreading the reset epidemic: remaining reset countdown.
    Propagating(usize),
    /// Quiescent after a reset: remaining cool-down.
    Dormant(usize),
}

impl State {
    /// Whether this agent is still in the leader-election tournament.
    pub open spec fn spec_is_electing(self) -> bool {
        match self {
            State::LE(_) => true,
            _ => false,
        }
    }

    #[verifier::when_used_as_spec(spec_is_electing)]
    pub fn is_electing(self) -> (result: bool)
        ensures
            result == self.spec_is_electing(),
    {
        match self {
            State::LE(_) => true,
            _ => false,
        }
    }

    /// Whether this agent holds a finalized rank.
    pub open spec fn spec_is_ranked(self) -> bool {
        match self {
            State::Rank(_) => true,
            _ => false,
        }
    }

    #[verifier::when_used_as_spec(spec_is_ranked)]
    pub fn is_ranked(self) -> (result: bool)
        ensures
            result == self.spec_is_ranked(),
    {
        match self {
            State::Rank(_) => true,
            _ => false,
        }
    }

    /// Whether this agent takes part in the computation proper, as opposed to
    /// riding out a reset wave.
    pub open spec fn spec_is_computing(self) -> bool {
        match self {
            State::Propagating(_) => false,
            State::Dormant(_) => false,
            _ => true,
        }
    }

    #[verifier::when_used_as_spec(spec_is_computing)]
    pub fn is_computing(self) -> (result: bool)
        ensures
            result == self.spec_is_computing(),
    {
        match self {
            State::Propagating(_) => false,
            State::Dormant(_) => false,
            _ => true,
        }
    }

    /// Whether this agent is in the main ranking protocol family.
    pub open spec fn spec_is_main(self) -> bool {
        match self {
            State::Rank(_) => true,
            State::Phase(_, _) => true,
            State::Waiting(_, _) => true,
            _ => false,
        }
    }

    #[verifier::when_used_as_spec(spec_is_main)]
    pub fn is_main(self) -> (result: bool)
        ensures
            result == self.spec_is_main(),
    {
        match self {
            State::Rank(_) => true,
            State::Phase(_, _) => true,
            State::Waiting(_, _) => true,
            _ => false,
        }
    }

    /// The liveness counter, for the two variants that carry one.
    pub open spec fn spec_alive_count(self) -> Option<usize> {
        match self {
            State::Phase(_, count) => Some(count),
            State::Waiting(_, count) => Some(count),
            _ => None,
        }
    }

    #[verifier::when_used_as_spec(spec_alive_count)]
    pub fn alive_count(self) -> (result: Option<usize>)
        ensures
            result == self.spec_alive_count(),
    {
        match self {
            State::Phase(_, count) => Some(count),
            State::Waiting(_, count) => Some(count),
            _ => None,
        }
    }

    /// The same state with its liveness counter replaced. States without a
    /// liveness counter are handed back unchanged.
    pub open spec fn spec_with_new_alive_count(self, new_count: usize) -> State {
        match self {
            State::Phase(phase, _) => State::Phase(phase, new_count),
            State::Waiting(wait_count, _) => State::Waiting(wait_count, new_count),
            _ => self,
        }
    }

    #[verifier::when_used_as_spec(spec_with_new_alive_count)]
    pub fn with_new_alive_count(self, new_count: usize) -> (result: State)
        requires
            self.spec_alive_count() is Some,
        ensures
            result == self.spec_with_new_alive_count(new_count),
    {
        match self {
            State::Phase(phase, _) => State::Phase(phase, new_count),
            State::Waiting(wait_count, _) => State::Waiting(wait_count, new_count),
            _ => self,
        }
    }

    /// The same state with its liveness counter refreshed to the full
    /// `C_LIVE * num_phases`.
    pub fn with_reset_alive_count(self, num_phases: usize) -> (result: State)
        requires
            self.spec_alive_count() is Some,
            C_LIVE * num_phases <= usize::MAX,
        ensures
            result == self.spec_with_new_alive_count((C_LIVE * num_phases) as usize),
    {
        self.with_new_alive_count(C_LIVE * num_phases)
    }

    /// Well-formedness of a stored agent state, for a population of `n`
    /// agents and `num_phases` election phases: ranks lie in `[1, n]`,
    /// phase tags lie in `[1, num_phases]`, every counter is still positive,
    /// and a stored election sub-state has neither resolved nor timed out
    /// (the dispatcher replaces it the moment it does).
    pub open spec fn wf(self, num_phases: usize, n: usize) -> bool {
        match self {
            State::Rank(rank) => 1 <= rank <= n,
            State::LE(le) => !le.error && !le.is_leader && 1 <= le.le_count,
            State::Waiting(wait_count, live) => 1 <= wait_count && 1 <= live,
            State::Phase(phase, live) => 1 <= phase <= num_phases && 1 <= live,
            State::Propagating(reset_count) => 1 <= reset_count,
            State::Dormant(cool_down) => 1 <= cool_down,
        }
    }
}

} // verus!
