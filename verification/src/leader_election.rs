//! Leader-election sub-protocol: a randomized coin-flip tournament.
//!
//! Each agent carries an [`LEState`]. Whenever two electing agents meet, each
//! side runs [`le_interact`] once, reacting to the partner's coin as it stood
//! before the meeting. An agent that survives one coin-flip phase per
//! election phase undefeated becomes the leader; an agent that meets a
//! "tails" partner stops contending; an agent whose global interaction budget
//! runs out raises the `error` flag, which the dispatcher turns into a full
//! protocol reset.

use vstd::prelude::*;

verus! {

/// Interaction-budget factor: a fresh agent may take part in
/// `C_LE * num_phases` leader-election interactions before timing out.
pub const C_LE: usize = 4;

/// Per-agent leader-election state.
///
/// `le_count` is the remaining global interaction budget, `coin_count` the
/// number of coin-flip phases still to be survived. `leader_done` marks an
/// agent that stopped contending; `is_leader` marks the winner; `error` marks
/// a timeout. Once `is_leader` or `error` is set the dispatcher replaces the
/// whole sub-state, so neither flag is ever cleared in place.
#[derive(Debug, Clone, Copy, PartialEq, Eq, Structural)]
pub struct LEState {
    pub le_count: usize,
    pub coin_count: usize,
    pub leader_done: bool,
    pub is_leader: bool,
    pub error: bool,
}

/// The sub-state a fresh agent starts from, for a tournament of
/// `num_phases` phases.
pub open spec fn fresh_le(num_phases: usize) -> LEState {
    LEState {
        le_count: (C_LE * num_phases) as usize,
        coin_count: num_phases,
        leader_done: false,
        is_leader: false,
        error: false,
    }
}

/// One leader-election step of the initiating agent `u`, reacting to the
/// partner's pre-flip coin `v_coin`. This is the whole transition rule:
/// a "tails" partner ends `u`'s contention; a still-contending `u` consumes
/// one phase; an agent out of phases wins; the budget always shrinks by one
/// and raises `error` when it reaches zero.
pub open spec fn le_step(u: LEState, v_coin: bool) -> LEState {
    let a = if !v_coin {
        LEState { leader_done: true, ..u }
    } else {
        u
    };
    let b = if !a.leader_done && a.coin_count > 0 {
        LEState { coin_count: (a.coin_count - 1) as usize, ..a }
    } else {
        a
    };
    let c = if b.coin_count == 0 {
        LEState { is_leader: true, leader_done: true, ..b }
    } else {
        b
    };
    let d = LEState { le_count: (c.le_count - 1) as usize, ..c };
    if d.le_count == 0 {
        LEState { error: true, ..d }
    } else {
        d
    }
}

impl LEState {
    /// A fresh contender: full budget, all phases ahead, no flags set.
    pub fn new(num_phases: usize) -> (result: LEState)
        requires
            C_LE * num_phases <= usize::MAX,
        ensures
            result == fresh_le(num_phases),
    {
        LEState {
            le_count: C_LE * num_phases,
            coin_count: num_phases,
            leader_done: false,
            is_leader: false,
            error: false,
        }
    }

    /// Whether this agent won the tournament.
    pub fn is_leader(self) -> (result: bool)
        ensures
            result == self.is_leader,
    {
        self.is_leader
    }

    /// Whether this agent's interaction budget timed out.
    pub fn is_error(self) -> (result: bool)
        ensures
            result == self.error,
    {
        self.error
    }
}

/// One leader-election interaction, seen from `u`'s side.
///
/// Only `u` evolves; the partner `v` is handed back untouched (the caller
/// runs the same function once per side, swapping roles). `v_coin` is `v`'s
/// coin as it stood before its post-interaction flip. The caller must never
/// pass a side that already holds `is_leader` or `error`: the dispatcher
/// replaces such sub-states before the next meeting.
pub fn le_interact(u: LEState, v: LEState, v_coin: bool) -> (result: (LEState, LEState))
    requires
        !u.error,
        !v.error,
        !u.is_leader,
        !v.is_leader,
        u.le_count >= 1,
    ensures
        result.0 == le_step(u, v_coin),
        result.1 == v,
        result.0.le_count == u.le_count - 1,
        result.0.error <==> u.le_count == 1,
        !v_coin ==> result.0.leader_done,
{
    let mut u = u;

    if !v_coin {
        u.leader_done = true;
    }
    if !u.leader_done && u.coin_count > 0 {
        u.coin_count = u.coin_count - 1;
    }

    if u.coin_count == 0 {
        u.is_leader = true;
        u.leader_done = true;
    }

    u.le_count = u.le_count - 1;

    if u.le_count == 0 {
        u.error = true;
        return (u, v);
    }

    (u, v)
}

/// `u` after reacting, in order, to each partner coin in `coins`.
pub open spec fn le_iter(u: LEState, coins: Seq<bool>) -> LEState
    decreases coins.len(),
{
    if coins.len() == 0 {
        u
    } else {
        le_step(le_iter(u, coins.drop_last()), coins.last())
    }
}

/// A fresh agent that has met `k` "heads" partners, `k` short of the full
/// tournament, is still contending: one phase consumed per meeting, one
/// budget unit per meeting, no flag set.
proof fn lemma_heads_progress(num_phases: usize, coins: Seq<bool>)
    requires
        1 <= num_phases,
        C_LE * num_phases <= usize::MAX,
        coins.len() < num_phases,
        forall|i: int| 0 <= i < coins.len() ==> coins[i],
    ensures
        le_iter(fresh_le(num_phases), coins) == (LEState {
            le_count: (C_LE * num_phases - coins.len()) as usize,
            coin_count: (num_phases - coins.len()) as usize,
            leader_done: false,
            is_leader: false,
            error: false,
        }),
    decreases coins.len(),
{
    if coins.len() > 0 {
        lemma_heads_progress(num_phases, coins.drop_last());
    }
}

/// An agent that always meets "heads" partners and starts fresh becomes
/// the leader after exactly `num_phases` meetings: its phase count reaches
/// zero undefeated, `is_leader` and `leader_done` are set, and the budget
/// — four meetings per phase — is far from exhausted.
pub proof fn lemma_always_heads_elects_leader(num_phases: usize, coins: Seq<bool>)
    requires
        1 <= num_phases,
        C_LE * num_phases <= usize::MAX,
        coins.len() == num_phases,
        forall|i: int| 0 <= i < coins.len() ==> coins[i],
    ensures
        le_iter(fresh_le(num_phases), coins).is_leader,
        le_iter(fresh_le(num_phases), coins).leader_done,
        le_iter(fresh_le(num_phases), coins).coin_count == 0,
        !le_iter(fresh_le(num_phases), coins).error,
        le_iter(fresh_le(num_phases), coins).le_count == C_LE * num_phases - num_phases,
{
    lemma_heads_progress(num_phases, coins.drop_last());
}

/// One "tails" partner ends contention at once: `leader_done` is set, the
/// agent does not become leader, and its phase count keeps its
/// pre-interaction value.
pub proof fn lemma_tails_stops_contending(u: LEState)
    requires
        !u.error,
        !u.is_leader,
        1 <= u.le_count,
        1 <= u.coin_count,
    ensures
        le_step(u, false).leader_done,
        !le_step(u, false).is_leader,
        le_step(u, false).coin_count == u.coin_count,
{
}

/// Once contention has ended without leadership, the phase count stays
/// frozen through every further meeting, whatever the partner's coin.
pub proof fn lemma_done_freezes_coin_count(u: LEState, v_coin: bool)
    requires
        u.leader_done,
        !u.is_leader,
        1 <= u.coin_count,
    ensures
        le_step(u, v_coin).leader_done,
        !le_step(u, v_coin).is_leader,
        le_step(u, v_coin).coin_count == u.coin_count,
{
}

/// The budget falls by exactly one per meeting, whatever the coins: after
/// `k < C_LE * num_phases` meetings a fresh agent has not timed out, and
/// the meeting that exhausts the budget — the `C_LE * num_phases`-th of an
/// agent that never resolved the tournament in its favour — raises
/// `error`.
pub proof fn lemma_budget_exhaustion(num_phases: usize, coins: Seq<bool>)
    requires
        1 <= num_phases,
        C_LE * num_phases <= usize::MAX,
        coins.len() <= C_LE * num_phases,
    ensures
        le_iter(fresh_le(num_phases), coins).le_count == C_LE * num_phases - coins.len(),
        coins.len() < C_LE * num_phases ==> !le_iter(fresh_le(num_phases), coins).error,
        coins.len() == C_LE * num_phases ==> le_iter(fresh_le(num_phases), coins).error,
    decreases coins.len(),
{
    if coins.len() > 0 {
        lemma_budget_exhaustion(num_phases, coins.drop_last());
    }
}

} // verus!
