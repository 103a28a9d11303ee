use population_ranking::leader_election::{le_interact, LEState};

#[test]
fn second_agent_only_flips_coin() {
    let num_phases = 3;

    let u = LEState::new(num_phases);
    let mut v = LEState::new(num_phases);

    let fresh = LEState::new(num_phases);

    (_, v) = le_interact(u, v, true);

    assert_eq!(v, fresh);
}

#[test]
fn elect_leader_correctly() {
    let num_phases = 3;

    let mut u = LEState::new(num_phases);
    let fresh = LEState::new(num_phases);

    (u, _) = le_interact(u, fresh, true);

    assert_eq!(u.le_count, fresh.le_count - 1);
    assert_eq!(u.coin_count, 2);
    assert!(!u.is_leader);
    assert!(!u.leader_done);
    assert!(!u.error);

    (u, _) = le_interact(u, fresh, true);

    assert_eq!(u.le_count, fresh.le_count - 2);
    assert_eq!(u.coin_count, 1);
    assert!(!u.is_leader);
    assert!(!u.leader_done);
    assert!(!u.error);

    (u, _) = le_interact(u, fresh, true);

    assert_eq!(u.le_count, fresh.le_count - 3);
    assert_eq!(u.coin_count, 0);
    assert!(u.is_leader);
    assert!(u.leader_done);
    assert!(!u.error);
}

#[test]
fn elect_follower_correctly() {
    let num_phases = 3;

    let mut u = LEState::new(num_phases);
    let fresh = LEState::new(num_phases);

    (u, _) = le_interact(u, fresh, false);

    assert_eq!(u.le_count, fresh.le_count - 1);
    assert_eq!(u.coin_count, 3);
    assert!(!u.is_leader);
    assert!(u.leader_done);
    assert!(!u.error);
}

#[test]
fn error_on_timeout() {
    let num_phases = 3;

    let mut u = LEState::new(num_phases);
    let fresh = LEState::new(num_phases);

    let timer_val = u.le_count;

    for i in 0..timer_val - 1 {
        (u, _) = le_interact(u, fresh, false);
        assert_eq!(u.le_count, fresh.le_count - (i + 1));
        assert_eq!(u.coin_count, 3);
        assert!(!u.is_leader);
        assert!(u.leader_done);
        assert!(!u.error);
    }

    (u, _) = le_interact(u, fresh, false);
    assert!(u.error);
}
