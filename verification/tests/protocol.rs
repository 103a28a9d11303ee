use population_ranking::leader_election::LEState;
use population_ranking::phases::num_phases;
use population_ranking::protocol::Protocol;
use population_ranking::state::State;

#[test]
fn num_phases_is_ceil_log2() {
    assert_eq!(num_phases(1), 0);
    assert_eq!(num_phases(2), 1);
    assert_eq!(num_phases(5), 3);
    assert_eq!(num_phases(8), 3);
    assert_eq!(num_phases(9), 4);
    assert_eq!(num_phases(1024), 10);
    assert_eq!(num_phases(1025), 11);
}

#[test]
fn range_table_partitions_eight() {
    let p = Protocol::new(8);
    assert_eq!(p.num_phases, 3);
    assert_eq!(p.range_starts[1..], [5, 3, 2]);
    assert_eq!(p.range_ends[1..], [8, 4, 2]);
    assert_eq!(p.range_lengths[1..], [4, 2, 1]);
    // phase 1 starts right above the midpoint
    assert_eq!(p.range_starts[1], 8usize.div_ceil(2) + 1);
    // the ranges cover [2, 8]: together with the leader's rank 1, all of [1, 8]
    assert_eq!(p.range_lengths[1..].iter().sum::<usize>(), 8 - 1);
}

#[test]
fn range_table_partitions_five() {
    let p = Protocol::new(5);
    assert_eq!(p.num_phases, 3);
    assert_eq!(p.range_starts[1..], [4, 3, 2]);
    assert_eq!(p.range_ends[1..], [5, 3, 2]);
    assert_eq!(p.range_lengths[1..], [2, 1, 1]);
    assert_eq!(p.range_lengths[1..].iter().sum::<usize>(), 5 - 1);
}

#[test]
fn distribution_hands_out_rank() {
    let p = Protocol::new(8);
    // the leader at Rank(1) meets the phase-1 authority on "heads":
    // the authority gets concrete rank 5 and the leader walks on to Rank(2)
    let (u, v) = p.interact(State::Rank(1), State::Phase(1, 12), Some(true));
    assert_eq!(u, State::Rank(2));
    assert_eq!(v, State::Rank(5));
}

#[test]
fn distribution_end_of_range_starts_waiting() {
    let p = Protocol::new(8);
    // Rank(4) is the last value inside phase 1's range length: the
    // authority gets rank 8 and the initiator starts waiting for phase 2
    let (u, v) = p.interact(State::Rank(4), State::Phase(1, 12), Some(true));
    assert_eq!(u, State::Waiting(6, 12));
    assert_eq!(v, State::Rank(8));
}

#[test]
fn tails_coin_only_refreshes_liveness() {
    let p = Protocol::new(8);
    let (u, v) = p.interact(State::Rank(1), State::Phase(1, 5), Some(false));
    assert_eq!(u, State::Rank(1));
    assert_eq!(v, State::Phase(1, 12));
}

#[test]
fn tails_coin_outside_range_changes_nothing() {
    let p = Protocol::new(8);
    let (u, v) = p.interact(State::Rank(6), State::Phase(2, 5), Some(false));
    assert_eq!(u, State::Rank(6));
    assert_eq!(v, State::Phase(2, 5));
}

#[test]
fn duplicate_rank_triggers_reset() {
    let p = Protocol::new(8);
    let (u, v) = p.interact(State::Rank(3), State::Rank(3), None);
    assert_eq!(u, State::Propagating(12));
    assert_eq!(v, State::Rank(3));
}

#[test]
fn liveness_exhaustion_triggers_reset() {
    let p = Protocol::new(8);
    let (u, v) = p.interact(State::Phase(1, 1), State::Phase(1, 1), Some(true));
    assert_eq!(u, State::Propagating(12));
    assert_eq!(v, State::Phase(1, 1));
}

#[test]
fn boundary_rank_taxes_liveness() {
    let p = Protocol::new(8);
    let (u, v) = p.interact(State::Rank(7), State::Waiting(3, 5), Some(true));
    assert_eq!(u, State::Rank(7));
    assert_eq!(v, State::Waiting(3, 4));
}

#[test]
fn boundary_rank_resets_spent_partner() {
    let p = Protocol::new(8);
    let (u, v) = p.interact(State::Rank(7), State::Waiting(3, 1), Some(true));
    assert_eq!(u, State::Rank(7));
    assert_eq!(v, State::Propagating(12));
}

#[test]
fn rank_survives_ordinary_meetings() {
    let p = Protocol::new(8);
    // no reset, no distribution: the finalized rank must not move
    let (u, _) = p.interact(State::Rank(5), State::Waiting(3, 7), Some(true));
    assert_eq!(u, State::Rank(5));
    let (u, _) = p.interact(State::Rank(5), State::Rank(2), None);
    assert_eq!(u, State::Rank(5));
    let (u, _) = p.interact(State::Rank(5), State::Phase(2, 9), Some(false));
    assert_eq!(u, State::Rank(5));
}

#[test]
fn phase_advances_at_range_end() {
    let p = Protocol::new(8);
    let (u, v) = p.interact(State::Rank(8), State::Phase(1, 12), Some(true));
    assert_eq!(u, State::Rank(8));
    assert_eq!(v, State::Phase(2, 12));
}

#[test]
fn exhausted_phases_trigger_reset() {
    let p = Protocol::new(8);
    let (u, v) = p.interact(State::Rank(2), State::Phase(3, 12), Some(true));
    assert_eq!(u, State::Rank(2));
    assert_eq!(v, State::Propagating(12));
}

#[test]
fn authorities_merge_to_largest_phase() {
    let p = Protocol::new(8);
    let (u, v) = p.interact(State::Phase(3, 7), State::Phase(1, 9), Some(true));
    assert_eq!(u, State::Phase(3, 8));
    assert_eq!(v, State::Phase(3, 8));
}

#[test]
fn waiting_leader_seeds_rank_one() {
    let p = Protocol::new(8);
    let (u, v) = p.interact(State::Waiting(1, 12), State::Phase(2, 12), Some(true));
    assert_eq!(u, State::Rank(1));
    assert_eq!(v, State::Phase(2, 11));
}

#[test]
fn reset_wave_infects_computing_partner() {
    let p = Protocol::new(8);
    let (u, v) = p.interact(State::Propagating(2), State::Rank(5), None);
    assert_eq!(u, State::Propagating(1));
    assert_eq!(v, State::Propagating(1));
}

#[test]
fn reset_wave_drains_into_dormancy() {
    let p = Protocol::new(8);
    let (u, v) = p.interact(State::Propagating(1), State::Rank(5), None);
    assert_eq!(u, State::Dormant(11));
    assert_eq!(v, State::Dormant(11));
}

#[test]
fn dormant_agent_rejoins_election() {
    let p = Protocol::new(8);
    let (u, v) = p.interact(State::Dormant(1), State::Dormant(5), Some(true));
    assert_eq!(u, State::LE(LEState::new(3)));
    assert_eq!(v, State::Dormant(4));
}

#[test]
fn electing_agent_bridges_to_phase_one() {
    let p = Protocol::new(8);
    let fresh = LEState::new(3);
    let (u, v) = p.interact(State::LE(fresh), State::Rank(4), None);
    assert_eq!(u, State::Phase(1, 12));
    assert_eq!(v, State::Rank(4));
}

#[test]
fn update_maintains_coins_and_count() {
    let mut p = Protocol::new_from_leader_election(2);
    assert_eq!(p.num_ranked, 1);
    assert_eq!(p.states[0], State::Rank(1));
    assert_eq!(p.coins[0], None);

    p.update(1, 0, 0);
    assert_eq!(p.states[0], State::Rank(1));
    assert_eq!(p.states[1], State::Phase(1, 4));
    assert_eq!(p.coins[0], None);
    assert_eq!(p.coins[1], Some(true));
    assert_eq!(p.num_ranked, 1);
}

#[test]
fn update_elects_leader_on_heads() {
    let mut p = Protocol::new(2);
    p.update(0, 1, 0);
    assert_eq!(p.states[0], State::Waiting(1, 4));
    assert_eq!(p.states[1], State::Phase(1, 3));
    assert_eq!(p.coins[1], Some(false));
    assert_eq!(p.num_ranked, 0);
}

struct SplitMix {
    state: u64,
}

impl SplitMix {
    fn next(&mut self) -> u64 {
        self.state = self.state.wrapping_add(0x9E3779B97F4A7C15);
        let mut z = self.state;
        z = (z ^ (z >> 30)).wrapping_mul(0xBF58476D1CE4E5B9);
        z = (z ^ (z >> 27)).wrapping_mul(0x94D049BB133111EB);
        z ^ (z >> 31)
    }

    fn pair(&mut self, n: usize) -> (usize, usize) {
        let i = (self.next() % n as u64) as usize;
        let mut j = (self.next() % (n as u64 - 1)) as usize;
        if j >= i {
            j += 1;
        }
        (i, j)
    }
}

fn assert_fully_ranked(p: &Protocol, n: usize) {
    assert_eq!(p.num_ranked, n);
    let mut seen = vec![false; n + 1];
    for s in &p.states {
        match s {
            State::Rank(r) => {
                assert!((1..=n).contains(r));
                assert!(!seen[*r], "duplicate rank {r}");
                seen[*r] = true;
            }
            other => panic!("unranked agent at completion: {other:?}"),
        }
    }
}

#[test]
fn full_run_ranks_every_agent() {
    let n = 8;
    let mut p = Protocol::new_from_leader_election(n);
    let mut rng = SplitMix { state: 7 };
    let mut t = 0;
    while p.num_ranked < n {
        t += 1;
        assert!(t <= 5_000_000, "ranking did not complete");
        let (i, j) = rng.pair(n);
        p.update(i, j, t);
    }
    assert_fully_ranked(&p, n);
}

#[test]
fn recovery_from_duplicate_rank() {
    let n = 8;
    let mut p = Protocol::new_completely_ranked_with_dupe(n);
    assert_eq!(p.num_ranked, n - 1);
    let mut rng = SplitMix { state: 11 };
    let mut t = 0;
    while p.num_ranked < n {
        t += 1;
        assert!(t <= 5_000_000, "recovery did not complete");
        let (i, j) = rng.pair(n);
        p.update(i, j, t);
    }
    assert_fully_ranked(&p, n);
}
