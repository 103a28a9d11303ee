//! The protocol core: the population, the phase range table, and the
//! interaction dispatcher with its three sub-protocols (leader election,
//! ranking, reset propagation).
//!
//! Every transition is stated twice: as a spec function giving the exact
//! mathematical transition, and as an executable function proved equal to
//! it. The population invariant [`Protocol::wf`] ties the pieces together:
//! the range table partitions the rank space, every stored state is
//! well-formed, coins exist exactly on unranked agents, and `num_ranked`
//! always equals the true number of ranked agents.

use vstd::prelude::*;

use crate::leader_election::le_step;
use crate::leader_election::le_interact;
use crate::leader_election::fresh_le;
use crate::leader_election::LEState;
use crate::phases::num_phases;
use crate::phases::num_phases_spec;
use crate::phases::ceil_half;
use crate::phases::lemma_ceil_half_bounds;
use crate::phases::lemma_num_phases_pos;
use crate::state::State;
use crate::state::C_WAIT;
use crate::state::C_LIVE;
use crate::state::C_RESET;
use crate::state::C_DELAY;

verus! {

/// 1 when the state is a finalized rank, else 0.
pub open spec fn rank_ind(s: State) -> int {
    if s.spec_is_ranked() {
        1
    } else {
        0
    }
}

/// The number of ranked agents in a population snapshot.
pub open spec fn count_ranked(s: Seq<State>) -> int
    decreases s.len(),
{
    if s.len() == 0 {
        0
    } else {
        count_ranked(s.drop_last()) + rank_ind(s.last())
    }
}

pub proof fn lemma_count_ranked_bounds(s: Seq<State>)
    ensures
        0 <= count_ranked(s) <= s.len(),
    decreases s.len(),
{
    if s.len() > 0 {
        lemma_count_ranked_bounds(s.drop_last());
    }
}

pub proof fn lemma_count_ranked_push(s: Seq<State>, x: State)
    ensures
        count_ranked(s.push(x)) == count_ranked(s) + rank_ind(x),
{
    assert(s.push(x).drop_last() =~= s);
    assert(s.push(x).last() == x);
}

pub proof fn lemma_count_ranked_update(s: Seq<State>, i: int, x: State)
    requires
        0 <= i < s.len(),
    ensures
        count_ranked(s.update(i, x)) == count_ranked(s) - rank_ind(s[i]) + rank_ind(x),
    decreases s.len(),
{
    if i == s.len() - 1 {
        assert(s.update(i, x).drop_last() =~= s.drop_last());
        assert(s.update(i, x).last() == x);
    } else {
        assert(s.update(i, x).drop_last() =~= s.drop_last().update(i, x));
        assert(s.update(i, x).last() == s.last());
        lemma_count_ranked_update(s.drop_last(), i, x);
    }
}

pub proof fn lemma_count_ranked_single(s: Seq<State>, i: int)
    requires
        0 <= i < s.len(),
    ensures
        count_ranked(s) >= rank_ind(s[i]),
    decreases s.len(),
{
    lemma_count_ranked_bounds(s.drop_last());
    if i < s.len() - 1 {
        lemma_count_ranked_single(s.drop_last(), i);
    }
}

pub proof fn lemma_count_ranked_pair(s: Seq<State>, i: int, j: int)
    requires
        0 <= i < s.len(),
        0 <= j < s.len(),
        i != j,
    ensures
        count_ranked(s) >= rank_ind(s[i]) + rank_ind(s[j]),
    decreases s.len(),
{
    if j == s.len() - 1 {
        lemma_count_ranked_single(s.drop_last(), i);
    } else if i == s.len() - 1 {
        lemma_count_ranked_single(s.drop_last(), j);
    } else {
        lemma_count_ranked_pair(s.drop_last(), i, j);
    }
}

/// The coin an agent carries after an interaction has settled its state:
/// ranked agents drop their coin, every other agent without one is dealt
/// `Some(false)`.
pub open spec fn coin_after(s: State, coin: Option<bool>) -> Option<bool> {
    if s.spec_is_ranked() {
        None
    } else if coin is None {
        Some(false)
    } else {
        coin
    }
}

/// The responder's coin flips after every interaction in which it had one.
pub open spec fn flip_coin(coin: Option<bool>) -> Option<bool> {
    match coin {
        Some(b) => Some(!b),
        None => None,
    }
}

/// The population: parallel state and coin arrays, the phase range table
/// built once from `n`, and the running count of ranked agents.
#[derive(Debug, Clone)]
pub struct Protocol {
    pub num_phases: usize,
    pub n: usize,
    pub states: Vec<State>,
    pub coins: Vec<Option<bool>>,
    pub num_ranked: usize,
    pub range_starts: Vec<usize>,
    pub range_ends: Vec<usize>,
    pub range_lengths: Vec<usize>,
}

impl Protocol {
    /// The phase range table partitions the rank space by repeated halving
    /// from the top: phase 1 covers the top half of `[1, n]`, each later
    /// phase the top half of what remains, and the last phase is always
    /// `[2, 2]`, leaving rank 1 to the leader. Index 0 is an unused
    /// sentinel.
    pub open spec fn ranges_wf(self) -> bool {
        &&& self.range_starts@.len() == self.num_phases + 1
        &&& self.range_ends@.len() == self.num_phases + 1
        &&& self.range_lengths@.len() == self.num_phases + 1
        &&& (self.num_phases >= 1 ==> self.range_ends@[1] == self.n)
        &&& (self.num_phases >= 1 ==> self.range_starts@[self.num_phases as int] == 2)
        &&& (forall|k: int|
            #![trigger self.range_starts@[k]]
            #![trigger self.range_ends@[k]]
            #![trigger self.range_lengths@[k]]
            1 <= k <= self.num_phases ==> {
                &&& 2 <= self.range_starts@[k]
                &&& self.range_starts@[k] <= self.range_ends@[k]
                &&& self.range_ends@[k] <= self.n
                &&& self.range_starts@[k] == ceil_half(self.range_ends@[k] as int) + 1
                &&& self.range_lengths@[k] == self.range_ends@[k] - self.range_starts@[k] + 1
            })
        &&& (forall|k: int|
            #![trigger self.range_ends@[k + 1]]
            #![trigger self.range_starts@[k]]
            1 <= k < self.num_phases ==> self.range_ends@[k + 1] == self.range_starts@[k] - 1)
    }

    /// A well-formed range table only depends on the table itself, `n` and
    /// `num_phases`; the rest of the population may change freely around it.
    pub proof fn lemma_ranges_wf_frame(a: Protocol, b: Protocol)
        requires
            a.ranges_wf(),
            b.num_phases == a.num_phases,
            b.n == a.n,
            b.range_starts@ == a.range_starts@,
            b.range_ends@ == a.range_ends@,
            b.range_lengths@ == a.range_lengths@,
        ensures
            b.ranges_wf(),
    {
        assert forall|k: int|
            #![trigger b.range_starts@[k]]
            #![trigger b.range_ends@[k]]
            #![trigger b.range_lengths@[k]]
            1 <= k <= b.num_phases implies {
            &&& 2 <= b.range_starts@[k]
            &&& b.range_starts@[k] <= b.range_ends@[k]
            &&& b.range_ends@[k] <= b.n
            &&& b.range_starts@[k] == ceil_half(b.range_ends@[k] as int) + 1
            &&& b.range_lengths@[k] == b.range_ends@[k] - b.range_starts@[k] + 1
        } by {
            assert(a.range_ends@[k] == b.range_ends@[k]);
            assert(a.range_starts@[k] == b.range_starts@[k]);
            assert(a.range_lengths@[k] == b.range_lengths@[k]);
        }
        assert forall|k: int|
            #![trigger b.range_ends@[k + 1]]
            #![trigger b.range_starts@[k]]
            1 <= k < b.num_phases implies b.range_ends@[k + 1] == b.range_starts@[k] - 1 by {
            assert(a.range_ends@[k + 1] == b.range_ends@[k + 1]);
            assert(a.range_starts@[k] == b.range_starts@[k]);
        }
    }

    /// The population invariant. Constructors establish it and
    /// [`Protocol::update`] preserves it.
    pub open spec fn wf(self) -> bool {
        &&& 1 <= self.n
        &&& self.num_phases == num_phases_spec(self.n as int)
        &&& self.num_phases <= 64
        &&& self.states@.len() == self.n
        &&& self.coins@.len() == self.n
        &&& self.ranges_wf()
        &&& self.num_ranked == count_ranked(self.states@)
        &&& (forall|k: int|
            #![trigger self.coins@[k]]
            #![trigger self.states@[k]]
            0 <= k < self.n ==> (self.coins@[k] is None <==> self.states@[k].spec_is_ranked()))
        &&& (self.num_phases >= 1 ==> forall|k: int|
            0 <= k < self.n ==> (#[trigger] self.states@[k]).wf(self.num_phases, self.n))
    }

    /// The state that starts a fresh reset wave.
    pub open spec fn reset_state(self) -> State {
        State::Propagating((C_RESET * self.num_phases) as usize)
    }

    /// Reset propagation, seen from the initiator's side: a propagating
    /// initiator infects a computing responder, two propagating agents merge
    /// their countdowns (going dormant at zero), and dormant agents count
    /// down their cool-down, re-entering leader election when it runs out.
    pub open spec fn reset_step(self, u: State, v: State) -> (State, State) {
        let np = self.num_phases;
        let pair = match u {
            State::Propagating(u_rc) => {
                let v_hit = if v.spec_is_computing() {
                    State::Propagating(u_rc)
                } else {
                    v
                };
                match v_hit {
                    State::Dormant(_) => {
                        let u_next = if u_rc <= 1 {
                            State::Dormant((C_DELAY * np) as usize)
                        } else {
                            State::Propagating((u_rc - 1) as usize)
                        };
                        (u_next, v_hit)
                    },
                    State::Propagating(v_rc) => {
                        let top = if u_rc > v_rc {
                            u_rc
                        } else {
                            v_rc
                        };
                        let floored = if top > 1 {
                            top
                        } else {
                            1
                        };
                        let new_rc = (floored - 1) as usize;
                        if new_rc == 0 {
                            (
                                State::Dormant((C_DELAY * np) as usize),
                                State::Dormant((C_DELAY * np) as usize),
                            )
                        } else {
                            (State::Propagating(new_rc), State::Propagating(new_rc))
                        }
                    },
                    _ => (u, v_hit),
                }
            },
            _ => (u, v),
        };
        let u_out = match pair.0 {
            State::Dormant(cool_down) => if cool_down == 1 {
                State::LE(fresh_le(np))
            } else {
                State::Dormant((cool_down - 1) as usize)
            },
            _ => pair.0,
        };
        let v_out = match pair.1 {
            State::Dormant(cool_down) => if cool_down == 1 {
                State::LE(fresh_le(np))
            } else {
                State::Dormant((cool_down - 1) as usize)
            },
            _ => pair.1,
        };
        (u_out, v_out)
    }

    /// Applies [`Protocol::reset_step`]: spreads, merges or drains a reset
    /// wave before any other sub-protocol runs.
    pub fn propagate_reset(&self, u: State, v: State) -> (result: (State, State))
        requires
            1 <= self.num_phases <= 64,
            u.wf(self.num_phases, self.n),
            v.wf(self.num_phases, self.n),
        ensures
            result == self.reset_step(u, v),
            result.0.wf(self.num_phases, self.n),
            result.1.wf(self.num_phases, self.n),
    {
        let mut u = u;
        let mut v = v;

        if let State::Propagating(u_rc) = u {
            if v.is_computing() {
                v = State::Propagating(u_rc);
            }

            if let State::Dormant(_) = v {
                u = if u_rc <= 1 {
                    State::Dormant(C_DELAY * self.num_phases)
                } else {
                    State::Propagating(u_rc - 1)
                };
            } else if let State::Propagating(v_rc) = v {
                let top = if u_rc > v_rc {
                    u_rc
                } else {
                    v_rc
                };
                let floored = if top > 1 {
                    top
                } else {
                    1
                };
                let new_rc = floored - 1;
                if new_rc == 0 {
                    u = State::Dormant(C_DELAY * self.num_phases);
                    v = State::Dormant(C_DELAY * self.num_phases);
                } else {
                    u = State::Propagating(new_rc);
                    v = State::Propagating(new_rc);
                }
            }
        }

        if let State::Dormant(u_dc) = u {
            let new_dc = u_dc - 1;
            if new_dc == 0 {
                u = State::LE(LEState::new(self.num_phases));
            } else {
                u = State::Dormant(new_dc);
            }
        }

        if let State::Dormant(v_dc) = v {
            let new_dc = v_dc - 1;
            if new_dc == 0 {
                v = State::LE(LEState::new(self.num_phases));
            } else {
                v = State::Dormant(new_dc);
            }
        }

        (u, v)
    }

    /// Rank distribution (the responder's coin came up "heads" and the
    /// responder is the `phase` authority with liveness `v_live`): a ranked
    /// initiator whose value still lies within the phase's range length
    /// hands the authority its concrete rank and walks on (or starts
    /// waiting for the next phase); an initiator holding the range's end
    /// advances the authority to the next phase (or starts a reset once all
    /// phases are done); two authorities merge to the larger phase; a
    /// waiting leader counts down towards seeding itself as rank 1.
    pub open spec fn ranking_distribute(self, u: State, phase: usize, v_live: usize) -> (
        State,
        State,
    ) {
        let np = self.num_phases;
        match u {
            State::Rank(rank) => {
                let pair = if rank <= self.range_lengths@[phase as int] {
                    let v_new = State::Rank(
                        (self.range_starts@[phase as int] + rank - 1) as usize,
                    );
                    let u_new = if rank < self.range_lengths@[phase as int] {
                        State::Rank((rank + 1) as usize)
                    } else if phase < np {
                        State::Waiting((C_WAIT * np) as usize, (C_LIVE * np) as usize)
                    } else {
                        u
                    };
                    (u_new, v_new)
                } else {
                    (u, State::Phase(phase, v_live))
                };
                let v_out = if rank == self.range_ends@[phase as int] {
                    if phase + 1 <= np {
                        State::Phase((phase + 1) as usize, (C_LIVE * np) as usize)
                    } else {
                        self.reset_state()
                    }
                } else {
                    pair.1
                };
                (pair.0, v_out)
            },
            State::Phase(u_phase, u_live) => {
                let top_phase = if u_phase > phase {
                    u_phase
                } else {
                    phase
                };
                (State::Phase(top_phase, u_live), State::Phase(top_phase, v_live))
            },
            State::Waiting(wait_count, _) => {
                let u_out = if wait_count == 1 {
                    State::Rank(1)
                } else {
                    State::Waiting((wait_count - 1) as usize, (C_LIVE * np) as usize)
                };
                (u_out, State::Phase(phase, v_live))
            },
            _ => (u, State::Phase(phase, v_live)),
        }
    }

    /// The responder-coin gate: on "tails" the only permitted effect is a
    /// liveness refresh of the responder (by a waiting leader, or by a
    /// ranked initiator still inside the responder's range length); on
    /// "heads" a phase authority runs the rank distribution.
    pub open spec fn ranking_gate(self, u: State, v: State, v_coin: Option<bool>) -> (
        State,
        State,
    ) {
        if v_coin == Some(false) {
            let v_out = match u {
                State::Waiting(_, _) => v.spec_with_new_alive_count(
                    (C_LIVE * self.num_phases) as usize,
                ),
                State::Rank(u_rank) => match v {
                    State::Phase(phase, _) => if u_rank <= self.range_lengths@[phase as int] {
                        v.spec_with_new_alive_count((C_LIVE * self.num_phases) as usize)
                    } else {
                        v
                    },
                    _ => v,
                },
                _ => v,
            };
            (u, v_out)
        } else {
            match v {
                State::Phase(phase, v_live) => self.ranking_distribute(u, phase, v_live),
                _ => (u, v),
            }
        }
    }

    /// The boundary-rank liveness tax: an initiator holding one of the two
    /// top ranks additionally drains the responder's liveness counter, and
    /// resets the responder outright when that counter is already spent.
    pub open spec fn ranking_boundary(self, u: State, v: State, v_coin: Option<bool>) -> (
        State,
        State,
    ) {
        match (u, v.spec_alive_count()) {
            (State::Rank(u_rank), Some(v_live)) => if u_rank + 1 >= self.n {
                if v_live > 1 {
                    self.ranking_gate(
                        u,
                        v.spec_with_new_alive_count((v_live - 1) as usize),
                        v_coin,
                    )
                } else {
                    (u, self.reset_state())
                }
            } else {
                self.ranking_gate(u, v, v_coin)
            },
            _ => self.ranking_gate(u, v, v_coin),
        }
    }

    /// One ranking interaction between two main-protocol agents: duplicate
    /// ranks trigger a reset; two carried liveness counters merge to their
    /// maximum less one, resetting at zero; then the boundary tax and the
    /// responder-coin gate apply.
    pub open spec fn ranking_step(self, u: State, v: State, v_coin: Option<bool>) -> (
        State,
        State,
    ) {
        if dup_rank(u, v) {
            (self.reset_state(), v)
        } else {
            match (u.spec_alive_count(), v.spec_alive_count()) {
                (Some(u_live), Some(v_live)) => {
                    let top = if u_live > v_live {
                        u_live
                    } else {
                        v_live
                    };
                    let counter = (top - 1) as usize;
                    if counter == 0 {
                        (self.reset_state(), v)
                    } else {
                        self.ranking_boundary(
                            u.spec_with_new_alive_count(counter),
                            v.spec_with_new_alive_count(counter),
                            v_coin,
                        )
                    }
                },
                _ => self.ranking_boundary(u, v, v_coin),
            }
        }
    }

    /// Applies [`Protocol::ranking_step`]. Both sides must already be in the
    /// main family, and the responder's coin must be absent exactly when the
    /// responder is ranked (the population invariant guarantees this).
    pub fn ranking_interact(&self, u: State, v: State, v_coin: Option<bool>) -> (result: (
        State,
        State,
    ))
        requires
            self.wf(),
            1 <= self.num_phases,
            u.wf(self.num_phases, self.n),
            v.wf(self.num_phases, self.n),
            u.spec_is_main(),
            v.spec_is_main(),
            (v_coin is None <==> v.spec_is_ranked()),
        ensures
            result == self.ranking_step(u, v, v_coin),
            result.0.wf(self.num_phases, self.n),
            result.1.wf(self.num_phases, self.n),
    {
        let mut u = u;
        let mut v = v;

        if let (State::Rank(u_rank), State::Rank(v_rank)) = (u, v) {
            if u_rank == v_rank {
                return (State::Propagating(C_RESET * self.num_phases), v);
            }
        }

        if let (Some(u_live), Some(v_live)) = (u.alive_count(), v.alive_count()) {
            let top = if u_live > v_live {
                u_live
            } else {
                v_live
            };
            let counter = top - 1;
            if counter == 0 {
                return (State::Propagating(C_RESET * self.num_phases), v);
            } else {
                u = u.with_new_alive_count(counter);
                v = v.with_new_alive_count(counter);
            }
        }

        if let (State::Rank(u_rank), Some(v_live)) = (u, v.alive_count()) {
            if u_rank >= self.n - 1 {
                if v_live > 1 {
                    v = v.with_new_alive_count(v_live - 1);
                } else {
                    return (u, State::Propagating(C_RESET * self.num_phases));
                }
            }
        }

        if v_coin == Some(false) {
            v = match u {
                State::Waiting(_, _) => v.with_reset_alive_count(self.num_phases),
                State::Rank(u_rank) => {
                    if let State::Phase(phase, _) = v {
                        if u_rank <= self.range_lengths[phase] {
                            v.with_reset_alive_count(self.num_phases)
                        } else {
                            v
                        }
                    } else {
                        v
                    }
                },
                _ => v,
            };
            return (u, v);
        }

        let (phase, v_live) = match v {
            State::Phase(phase, v_live) => (phase, v_live),
            _ => {
                return (u, v);
            },
        };

        match u {
            State::Rank(rank) => {
                if rank <= self.range_lengths[phase] {
                    v = State::Rank(self.range_starts[phase] + (rank - 1));
                    if rank < self.range_lengths[phase] {
                        u = State::Rank(rank + 1);
                    } else if phase < self.num_phases {
                        u = State::Waiting(C_WAIT * self.num_phases, C_LIVE * self.num_phases);
                    }
                }
                if rank == self.range_ends[phase] {
                    let new_phase = phase + 1;
                    v = if new_phase <= self.num_phases {
                        State::Phase(new_phase, C_LIVE * self.num_phases)
                    } else {
                        State::Propagating(C_RESET * self.num_phases)
                    };
                }
            },
            State::Phase(u_phase, u_live) => {
                let top_phase = if u_phase > phase {
                    u_phase
                } else {
                    phase
                };
                u = State::Phase(top_phase, u_live);
                v = State::Phase(top_phase, v_live);
            },
            State::Waiting(wait_count, _) => {
                if wait_count == 1 {
                    u = State::Rank(1);
                } else {
                    u = State::Waiting(wait_count - 1, C_LIVE * self.num_phases);
                }
            },
            _ => {},
        }

        (u, v)
    }

    /// A fresh population of `n` electing agents, all coins showing heads,
    /// with the phase range table built from `n` by repeated halving.
    #[verifier::rlimit(100)]
    pub fn new(n: usize) -> (result: Protocol)
        requires
            1 <= n,
        ensures
            result.wf(),
            result.n == n,
            result.num_phases == num_phases_spec(n as int),
            result.num_ranked == 0,
            forall|i: int|
                0 <= i < n ==> result.states@[i] == State::LE(fresh_le(result.num_phases)),
            forall|i: int| 0 <= i < n ==> result.coins@[i] == Some(true),
    {
        let phases = num_phases(n);
        let mut range_starts: Vec<usize> = Vec::new();
        let mut range_ends: Vec<usize> = Vec::new();
        let mut range_lengths: Vec<usize> = Vec::new();
        range_starts.push(usize::MAX);
        range_ends.push(usize::MAX);
        range_lengths.push(usize::MAX);
        let mut rem: usize = n;
        let mut k: usize = 1;
        while k <= phases
            invariant
                1 <= k <= phases + 1,
                phases == num_phases_spec(n as int),
                phases <= 64,
                1 <= n,
                range_starts@.len() == k,
                range_ends@.len() == k,
                range_lengths@.len() == k,
                1 <= rem <= n,
                num_phases_spec(rem as int) == phases - (k - 1),
                k == 1 ==> rem == n,
                k >= 2 ==> range_ends@[1] == n,
                k >= 2 ==> rem == range_starts@[k - 1] - 1,
                forall|j: int|
                    #![trigger range_starts@[j]]
                    #![trigger range_ends@[j]]
                    #![trigger range_lengths@[j]]
                    1 <= j < k ==> {
                        &&& 2 <= range_starts@[j]
                        &&& range_starts@[j] <= range_ends@[j]
                        &&& range_ends@[j] <= n
                        &&& range_starts@[j] == ceil_half(range_ends@[j] as int) + 1
                        &&& range_lengths@[j] == range_ends@[j] - range_starts@[j] + 1
                    },
                forall|j: int|
                    #![trigger range_ends@[j + 1]]
                    #![trigger range_starts@[j]]
                    1 <= j < k - 1 ==> range_ends@[j + 1] == range_starts@[j] - 1,
            decreases phases + 1 - k,
        {
            proof {
                assert(num_phases_spec(rem as int) >= 1);
                if rem < 2 {
                    assert(num_phases_spec(rem as int) == 0);
                }
                lemma_ceil_half_bounds(rem as int);
            }
            let ghost pre_starts = range_starts@;
            let ghost pre_ends = range_ends@;
            let ghost pre_lengths = range_lengths@;
            let end = rem;
            let start = rem / 2 + rem % 2 + 1;
            let length = end - start + 1;
            range_ends.push(end);
            range_starts.push(start);
            range_lengths.push(length);
            proof {
                assert(range_starts@ =~= pre_starts.push(start));
                assert(range_ends@ =~= pre_ends.push(end));
                assert(range_lengths@ =~= pre_lengths.push(length));
                assert(start == ceil_half(end as int) + 1);
                assert(rem - length == ceil_half(rem as int));
                assert(num_phases_spec(ceil_half(rem as int)) == num_phases_spec(rem as int)
                    - 1);
                assert forall|j: int|
                    #![trigger range_starts@[j]]
                    #![trigger range_ends@[j]]
                    #![trigger range_lengths@[j]]
                    1 <= j < k + 1 implies {
                    &&& 2 <= range_starts@[j]
                    &&& range_starts@[j] <= range_ends@[j]
                    &&& range_ends@[j] <= n
                    &&& range_starts@[j] == ceil_half(range_ends@[j] as int) + 1
                    &&& range_lengths@[j] == range_ends@[j] - range_starts@[j] + 1
                } by {
                    if j == k {
                        assert(range_ends@[j] == end);
                        assert(range_starts@[j] == start);
                        assert(range_lengths@[j] == length);
                    } else {
                        assert(range_ends@[j] == pre_ends[j]);
                        assert(range_starts@[j] == pre_starts[j]);
                        assert(range_lengths@[j] == pre_lengths[j]);
                    }
                }
                assert forall|j: int|
                    #![trigger range_ends@[j + 1]]
                    #![trigger range_starts@[j]]
                    1 <= j < k implies range_ends@[j + 1] == range_starts@[j] - 1 by {
                    if j + 1 == k {
                        assert(range_ends@[j + 1] == end);
                        assert(range_starts@[j] == pre_starts[j]);
                    } else {
                        assert(range_ends@[j + 1] == pre_ends[j + 1]);
                        assert(range_starts@[j] == pre_starts[j]);
                    }
                }
            }
            rem = rem - length;
            k = k + 1;
        }
        proof {
            assert(k == phases + 1);
            if rem >= 2 {
                lemma_num_phases_pos(rem as int);
            }
            assert(rem == 1);
        }

        let mut states: Vec<State> = Vec::new();
        let mut coins: Vec<Option<bool>> = Vec::new();
        let mut a: usize = 0;
        while a < n
            invariant
                a <= n,
                phases <= 64,
                states@.len() == a,
                coins@.len() == a,
                count_ranked(states@) == 0,
                forall|i: int| 0 <= i < a ==> states@[i] == State::LE(fresh_le(phases)),
                forall|i: int| 0 <= i < a ==> coins@[i] == Some(true),
            decreases n - a,
        {
            proof {
                lemma_count_ranked_push(states@, State::LE(fresh_le(phases)));
            }
            states.push(State::LE(LEState::new(phases)));
            coins.push(Some(true));
            a = a + 1;
        }

        let ghost g_starts = range_starts@;
        let ghost g_ends = range_ends@;
        let ghost g_lengths = range_lengths@;
        let ghost g_states = states@;
        let ghost g_coins = coins@;
        let result = Protocol {
            num_phases: phases,
            n,
            coins,
            states,
            num_ranked: 0,
            range_starts,
            range_ends,
            range_lengths,
        };
        proof {
            assert forall|q: int|
                #![trigger result.range_starts@[q]]
                #![trigger result.range_ends@[q]]
                #![trigger result.range_lengths@[q]]
                1 <= q <= result.num_phases implies {
                &&& 2 <= result.range_starts@[q]
                &&& result.range_starts@[q] <= result.range_ends@[q]
                &&& result.range_ends@[q] <= result.n
                &&& result.range_starts@[q] == ceil_half(result.range_ends@[q] as int) + 1
                &&& result.range_lengths@[q] == result.range_ends@[q] - result.range_starts@[q]
                    + 1
            } by {
                assert(result.range_ends@[q] == g_ends[q]);
                assert(result.range_starts@[q] == g_starts[q]);
                assert(result.range_lengths@[q] == g_lengths[q]);
            }
            assert forall|q: int|
                #![trigger result.range_ends@[q + 1]]
                #![trigger result.range_starts@[q]]
                1 <= q < result.num_phases implies result.range_ends@[q + 1]
                == result.range_starts@[q] - 1 by {
                assert(result.range_ends@[q + 1] == g_ends[q + 1]);
                assert(result.range_starts@[q] == g_starts[q]);
            }
            assert forall|q: int|
                0 <= q < n implies #[trigger] result.states@[q] == State::LE(fresh_le(phases)) by {
                assert(result.states@[q] == g_states[q]);
            }
            assert forall|q: int| 0 <= q < n implies #[trigger] result.coins@[q] == Some(true) by {
                assert(result.coins@[q] == g_coins[q]);
            }
        }
        result
    }

    /// A population that has just elected a leader: one seed agent already
    /// holds rank 1, everyone else is still electing.
    pub fn new_from_leader_election(n: usize) -> (result: Protocol)
        requires
            1 <= n,
        ensures
            result.wf(),
            result.n == n,
            result.num_phases == num_phases_spec(n as int),
            result.num_ranked == 1,
            result.states@[0] == State::Rank(1),
            result.coins@[0] == None::<bool>,
            forall|i: int|
                1 <= i < n ==> result.states@[i] == State::LE(fresh_le(result.num_phases)),
            forall|i: int| 1 <= i < n ==> result.coins@[i] == Some(true),
    {
        let mut result = Protocol::new(n);

        let ghost base = result;
        proof {
            lemma_count_ranked_update(result.states@, 0, State::Rank(1));
        }
        result.states.set(0, State::Rank(1));
        result.coins.set(0, None);
        result.num_ranked = 1;
        proof {
            Protocol::lemma_ranges_wf_frame(base, result);
            assert forall|q: int|
                0 <= q < n implies ((#[trigger] result.coins@[q]) is None <==> result.states@[
                q].spec_is_ranked()) by {
                if q != 0 {
                    assert(result.coins@[q] == base.coins@[q]);
                    assert(result.states@[q] == base.states@[q]);
                }
            }
            if result.num_phases >= 1 {
                assert forall|q: int|
                    0 <= q < n implies (#[trigger] result.states@[q]).wf(
                    result.num_phases,
                    result.n,
                ) by {
                    if q != 0 {
                        assert(result.states@[q] == base.states@[q]);
                    }
                }
            }
            assert forall|q: int|
                1 <= q < n implies #[trigger] result.states@[q] == State::LE(
                fresh_le(result.num_phases),
            ) by {
                assert(result.states@[q] == base.states@[q]);
            }
            assert forall|q: int| 1 <= q < n implies #[trigger] result.coins@[q] == Some(
                true,
            ) by {
                assert(result.coins@[q] == base.coins@[q]);
            }
        }
        result
    }

    /// A fully ranked population with one injected corruption: agent 0's
    /// rank is taken away and the agent is re-seeded as the authority of
    /// the last phase, so that the next rank it hands out duplicates an
    /// existing one. The starting point of the recovery scenario.
    #[verifier::rlimit(100)]
    pub fn new_completely_ranked_with_dupe(n: usize) -> (result: Protocol)
        requires
            2 <= n,
        ensures
            result.wf(),
            result.n == n,
            result.num_phases == num_phases_spec(n as int),
            result.num_ranked == n - 1,
            result.states@[0] == State::Phase(
                result.num_phases,
                (C_LIVE * result.num_phases) as usize,
            ),
            result.coins@[0] == Some(false),
            forall|i: int| 1 <= i < n ==> result.states@[i] == State::Rank((i + 1) as usize),
            forall|i: int| 1 <= i < n ==> result.coins@[i] == None::<bool>,
    {
        let mut result = Protocol::new(n);

        let mut i: usize = 0;
        while i < n
            invariant
                i <= n,
                2 <= n,
                result.n == n,
                result.num_phases == num_phases_spec(n as int),
                result.num_phases <= 64,
                result.ranges_wf(),
                result.states@.len() == n,
                result.coins@.len() == n,
                result.num_ranked == i,
                count_ranked(result.states@) == i,
                forall|j: int| 0 <= j < i ==> result.states@[j] == State::Rank((j + 1) as usize),
                forall|j: int| 0 <= j < i ==> result.coins@[j] == None::<bool>,
                forall|j: int|
                    i <= j < n ==> result.states@[j] == State::LE(fresh_le(result.num_phases)),
                forall|j: int| i <= j < n ==> result.coins@[j] == Some(true),
            decreases n - i,
        {
            let ghost pre = result;
            proof {
                lemma_count_ranked_update(result.states@, i as int, State::Rank((i + 1) as usize));
            }
            result.states.set(i, State::Rank(i + 1));
            result.coins.set(i, None);
            result.num_ranked = result.num_ranked + 1;
            proof {
                Protocol::lemma_ranges_wf_frame(pre, result);
                assert forall|j: int|
                    0 <= j < i + 1 implies #[trigger] result.states@[j] == State::Rank(
                    (j + 1) as usize,
                ) by {
                    if j < i {
                        assert(result.states@[j] == pre.states@[j]);
                    }
                }
                assert forall|j: int| 0 <= j < i + 1 implies #[trigger] result.coins@[j]
                    == None::<bool> by {
                    if j < i {
                        assert(result.coins@[j] == pre.coins@[j]);
                    }
                }
                assert forall|j: int|
                    i + 1 <= j < n implies #[trigger] result.states@[j] == State::LE(
                    fresh_le(result.num_phases),
                ) by {
                    assert(result.states@[j] == pre.states@[j]);
                }
                assert forall|j: int| i + 1 <= j < n implies #[trigger] result.coins@[j] == Some(
                    true,
                ) by {
                    assert(result.coins@[j] == pre.coins@[j]);
                }
            }
            i = i + 1;
        }

        let ghost base = result;
        proof {
            lemma_num_phases_pos(n as int);
            lemma_count_ranked_update(
                result.states@,
                0,
                State::Phase(result.num_phases, (C_LIVE * result.num_phases) as usize),
            );
        }
        result.states.set(
            0,
            State::Phase(result.num_phases, C_LIVE * result.num_phases),
        );
        result.coins.set(0, Some(false));
        result.num_ranked = result.num_ranked - 1;
        proof {
            Protocol::lemma_ranges_wf_frame(base, result);
            assert forall|q: int|
                0 <= q < n implies ((#[trigger] result.coins@[q]) is None <==> result.states@[
                q].spec_is_ranked()) by {
                if q != 0 {
                    assert(result.coins@[q] == base.coins@[q]);
                    assert(result.states@[q] == base.states@[q]);
                }
            }
            assert forall|q: int|
                0 <= q < n implies (#[trigger] result.states@[q]).wf(
                result.num_phases,
                result.n,
            ) by {
                if q != 0 {
                    assert(result.states@[q] == base.states@[q]);
                }
            }
            assert forall|q: int|
                1 <= q < n implies #[trigger] result.states@[q] == State::Rank(
                (q + 1) as usize,
            ) by {
                assert(result.states@[q] == base.states@[q]);
            }
            assert forall|q: int| 1 <= q < n implies #[trigger] result.coins@[q]
                == None::<bool> by {
                assert(result.coins@[q] == base.coins@[q]);
            }
        }
        result
    }

    /// One scheduler step: agents `i` and `j` interact, with `i` as the
    /// initiator. The responder's coin flips, ranked agents drop their
    /// coins, freshly unranked agents are dealt a tails coin, and
    /// `num_ranked` is kept in step with the true count of ranked agents.
    #[verifier::rlimit(100)]
    pub fn update(&mut self, i: usize, j: usize, _t: usize)
        requires
            old(self).wf(),
            i != j,
            i < old(self).n,
            j < old(self).n,
        ensures
            final(self).wf(),
            final(self).n == old(self).n,
            final(self).num_phases == old(self).num_phases,
            final(self).range_starts@ == old(self).range_starts@,
            final(self).range_ends@ == old(self).range_ends@,
            final(self).range_lengths@ == old(self).range_lengths@,
            ({
                let pair = old(self).interact_spec(
                    old(self).states@[i as int],
                    old(self).states@[j as int],
                    old(self).coins@[j as int],
                );
                &&& final(self).states@ =~= old(self).states@.update(i as int, pair.0).update(
                    j as int,
                    pair.1,
                )
                &&& final(self).coins@ =~= old(self).coins@.update(
                    i as int,
                    coin_after(pair.0, old(self).coins@[i as int]),
                ).update(j as int, coin_after(pair.1, flip_coin(old(self).coins@[j as int])))
            }),
    {
        proof {
            lemma_num_phases_pos(old(self).n as int);
            lemma_count_ranked_pair(old(self).states@, i as int, j as int);
        }
        let u = self.states[i];
        let v = self.states[j];
        let ranks_before: usize = (
        if u.is_ranked() {
            1
        } else {
            0
        }) + (
        if v.is_ranked() {
            1
        } else {
            0
        });

        let (u_new, v_new) = self.interact(u, v, self.coins[j]);
        proof {
            lemma_count_ranked_update(self.states@, i as int, u_new);
            lemma_count_ranked_update(self.states@.update(i as int, u_new), j as int, v_new);
        }
        self.states.set(i, u_new);
        self.states.set(j, v_new);

        if let Some(coin) = self.coins[j] {
            self.coins.set(j, Some(!coin));
        }

        if self.states[i].is_ranked() {
            self.coins.set(i, None);
        } else if self.coins[i].is_none() {
            self.coins.set(i, Some(false));
        }
        if self.states[j].is_ranked() {
            self.coins.set(j, None);
        } else if self.coins[j].is_none() {
            self.coins.set(j, Some(false));
        }

        let ranks_after: usize = (
        if u_new.is_ranked() {
            1
        } else {
            0
        }) + (
        if v_new.is_ranked() {
            1
        } else {
            0
        });
        proof {
            lemma_count_ranked_bounds(self.states@);
            assert(self.states@ =~= old(self).states@.update(i as int, u_new).update(
                j as int,
                v_new,
            ));
            assert(self.coins@ =~= old(self).coins@.update(
                i as int,
                coin_after(u_new, old(self).coins@[i as int]),
            ).update(j as int, coin_after(v_new, flip_coin(old(self).coins@[j as int]))));
            assert forall|q: int| 0 <= q < old(self).n implies ((#[trigger] self.coins@[q])
                is None <==> self.states@[q].spec_is_ranked()) by {
                if q != i && q != j {
                    assert(self.coins@[q] == old(self).coins@[q]);
                    assert(self.states@[q] == old(self).states@[q]);
                }
            }
            assert forall|q: int| 0 <= q < old(self).n implies (#[trigger] self.states@[q]).wf(
                self.num_phases,
                self.n,
            ) by {
                if q != i && q != j {
                    assert(self.states@[q] == old(self).states@[q]);
                }
            }
        }
        self.num_ranked = (self.num_ranked - ranks_before) + ranks_after;
    }

    /// One full interaction, seen from the initiator's side: first any
    /// in-flight reset is propagated, then a pair of electing agents runs
    /// one leader-election step (the initiator reacting to the responder's
    /// pre-flip coin; a timeout starts a reset, a win starts the waiting
    /// countdown), then an electing agent that meets a main-protocol agent
    /// is bridged straight into `Phase` 1, and finally two main-protocol
    /// agents run a ranking step.
    pub open spec fn interact_spec(self, u: State, v: State, v_coin: Option<bool>) -> (
        State,
        State,
    ) {
        let np = self.num_phases;
        let reset_pair = self.reset_step(u, v);
        let elected = match (reset_pair.0, reset_pair.1) {
            (State::LE(u_le), State::LE(v_le)) => {
                let u_le_new = match v_coin {
                    Some(coin) => le_step(u_le, coin),
                    None => u_le,
                };
                let u_new = if u_le_new.error {
                    self.reset_state()
                } else if u_le_new.is_leader {
                    State::Waiting((C_WAIT * np) as usize, (C_LIVE * np) as usize)
                } else {
                    State::LE(u_le_new)
                };
                let v_new = if v_le.error {
                    self.reset_state()
                } else if v_le.is_leader {
                    State::Waiting((C_WAIT * np) as usize, (C_LIVE * np) as usize)
                } else {
                    State::LE(v_le)
                };
                (u_new, v_new)
            },
            _ => reset_pair,
        };
        let u_bridged = if elected.0.spec_is_electing() && elected.1.spec_is_main() {
            State::Phase(1, (C_LIVE * np) as usize)
        } else {
            elected.0
        };
        let v_bridged = if elected.1.spec_is_electing() && u_bridged.spec_is_main() {
            State::Phase(1, (C_LIVE * np) as usize)
        } else {
            elected.1
        };
        if u_bridged.spec_is_main() && v_bridged.spec_is_main() {
            self.ranking_step(u_bridged, v_bridged, v_coin)
        } else {
            (u_bridged, v_bridged)
        }
    }

    /// Applies [`Protocol::interact_spec`], composing reset propagation,
    /// leader election, the epidemic bridge and the ranking sub-protocol.
    pub fn interact(&self, u: State, v: State, v_coin: Option<bool>) -> (result: (State, State))
        requires
            self.wf(),
            1 <= self.num_phases,
            u.wf(self.num_phases, self.n),
            v.wf(self.num_phases, self.n),
            (v_coin is None <==> v.spec_is_ranked()),
        ensures
            result == self.interact_spec(u, v, v_coin),
            result.0.wf(self.num_phases, self.n),
            result.1.wf(self.num_phases, self.n),
    {
        let (mut u, mut v) = self.propagate_reset(u, v);

        if let (State::LE(u_le), State::LE(v_le)) = (u, v) {
            let coin = match v_coin {
                Some(coin) => coin,
                None => {
                    // The responder only lacks a coin while ranked, and a
                    // ranked responder never leaves reset propagation as an
                    // electing one.
                    proof {
                        assert(false);
                    }
                    false
                },
            };
            let (u_le_new, v_le_same) = le_interact(u_le, v_le, coin);

            if u_le_new.is_error() {
                u = State::Propagating(C_RESET * self.num_phases);
            } else if u_le_new.is_leader() {
                u = State::Waiting(C_WAIT * self.num_phases, C_LIVE * self.num_phases);
            } else {
                u = State::LE(u_le_new);
            }

            if v_le_same.is_error() {
                v = State::Propagating(C_RESET * self.num_phases);
            } else if v_le_same.is_leader() {
                v = State::Waiting(C_WAIT * self.num_phases, C_LIVE * self.num_phases);
            } else {
                v = State::LE(v_le_same);
            }
        }

        if u.is_electing() && v.is_main() {
            u = State::Phase(1, C_LIVE * self.num_phases);
        }
        if v.is_electing() && u.is_main() {
            v = State::Phase(1, C_LIVE * self.num_phases);
        }

        if u.is_main() && v.is_main() {
            self.ranking_interact(u, v, v_coin)
        } else {
            (u, v)
        }
    }
}

/// Whether both sides hold the same finalized rank: the corruption the
/// protocol self-stabilizes away from.
pub open spec fn dup_rank(u: State, v: State) -> bool {
    match (u, v) {
        (State::Rank(u_rank), State::Rank(v_rank)) => u_rank == v_rank,
        _ => false,
    }
}

} // verus!
