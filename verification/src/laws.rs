//! Global properties of the protocol, proved once and for all: the phase
//! range table partitions the rank space, and a finalized rank survives
//! every interaction that is neither a reset nor a step of the leader's
//! own rank-distributing walk.

use vstd::prelude::*;

use crate::phases::lemma_num_phases_pos;
use crate::protocol::Protocol;
use crate::state::State;

verus! {

/// Some phase range contains `r`.
pub open spec fn covered(p: Protocol, r: int) -> bool {
    exists|j: int|
        1 <= j <= p.num_phases && p.range_starts@[j] <= r <= #[trigger] p.range_ends@[j]
}

/// The sum of `lengths[from..]`.
pub open spec fn sum_lengths_from(lengths: Seq<usize>, from: int) -> int
    decreases lengths.len() - from,
{
    if from < 0 || from >= lengths.len() {
        0
    } else {
        lengths[from] + sum_lengths_from(lengths, from + 1)
    }
}

/// Later phase ranges lie strictly below earlier ones.
proof fn lemma_range_chain(p: Protocol, a: int, b: int)
    requires
        p.ranges_wf(),
        1 <= a < b <= p.num_phases,
    ensures
        p.range_ends@[b] <= p.range_starts@[a] - 1,
    decreases b - a,
{
    if b == a + 1 {
        assert(p.range_ends@[a + 1] == p.range_starts@[a] - 1);
    } else {
        lemma_range_chain(p, a + 1, b);
        assert(p.range_ends@[a + 1] == p.range_starts@[a] - 1);
        assert(p.range_starts@[a + 1] <= p.range_ends@[a + 1]);
    }
}

/// The ranges of phases `k..=num_phases` cover all of `[2, range_ends[k]]`.
proof fn lemma_range_cover(p: Protocol, k: int)
    requires
        p.ranges_wf(),
        p.num_phases >= 1,
        1 <= k <= p.num_phases,
    ensures
        forall|r: int| 2 <= r <= p.range_ends@[k] ==> #[trigger] covered(p, r),
    decreases p.num_phases - k,
{
    if k == p.num_phases {
        assert forall|r: int| 2 <= r <= p.range_ends@[k] implies #[trigger] covered(p, r) by {
            assert(p.range_starts@[k] == 2);
            assert(p.range_ends@[k] == 2);
            assert(p.range_starts@[k] <= r <= p.range_ends@[k]);
        }
    } else {
        lemma_range_cover(p, k + 1);
        assert forall|r: int| 2 <= r <= p.range_ends@[k] implies #[trigger] covered(p, r) by {
            if p.range_starts@[k] <= r {
                assert(p.range_starts@[k] <= r <= p.range_ends@[k]);
            } else {
                assert(p.range_ends@[k + 1] == p.range_starts@[k] - 1);
                assert(2 <= r <= p.range_ends@[k + 1]);
            }
        }
    }
}

/// The lengths of phases `k..=num_phases` sum to `range_ends[k] - 1`: the
/// ranges stack seamlessly on top of the leader's rank 1.
proof fn lemma_sum_lengths_tail(p: Protocol, k: int)
    requires
        p.ranges_wf(),
        p.num_phases >= 1,
        1 <= k <= p.num_phases,
    ensures
        sum_lengths_from(p.range_lengths@, k) == p.range_ends@[k] - 1,
    decreases p.num_phases - k,
{
    if k == p.num_phases {
        assert(p.range_starts@[k] == 2);
        assert(p.range_ends@[k] == 2);
        assert(p.range_lengths@[k] == 1);
        assert(sum_lengths_from(p.range_lengths@, k + 1) == 0);
    } else {
        lemma_sum_lengths_tail(p, k + 1);
        assert(p.range_ends@[k + 1] == p.range_starts@[k] - 1);
    }
}

/// The phase range table partitions the rank space: phase 1 starts at
/// `⌈n/2⌉ + 1` and ends at `n`, consecutive phases tile downwards without
/// gap or overlap, the last phase is `[2, 2]`, and the range lengths sum
/// to `n - 1` — together with the leader's reserved rank 1 the ranges
/// cover `[1, n]` exactly.
pub proof fn lemma_ranges_partition(p: Protocol)
    requires
        p.wf(),
        2 <= p.n,
    ensures
        p.num_phases >= 1,
        p.range_ends@[1] == p.n,
        p.range_starts@[1] == p.n / 2 + p.n % 2 + 1,
        p.range_starts@[p.num_phases as int] == 2,
        forall|k: int|
            #![trigger p.range_ends@[k + 1]]
            #![trigger p.range_starts@[k]]
            1 <= k < p.num_phases ==> p.range_ends@[k + 1] == p.range_starts@[k] - 1,
        forall|k1: int, k2: int|
            #![trigger p.range_ends@[k2], p.range_starts@[k1]]
            1 <= k1 < k2 <= p.num_phases ==> p.range_ends@[k2] < p.range_starts@[k1],
        forall|r: int| 2 <= r <= p.n ==> #[trigger] covered(p, r),
        sum_lengths_from(p.range_lengths@, 1) == p.n - 1,
{
    lemma_num_phases_pos(p.n as int);
    assert forall|k1: int, k2: int|
        #![trigger p.range_ends@[k2], p.range_starts@[k1]]
        1 <= k1 < k2 <= p.num_phases implies p.range_ends@[k2] < p.range_starts@[k1] by {
        lemma_range_chain(p, k1, k2);
    }
    lemma_range_cover(p, 1);
    lemma_sum_lengths_tail(p, 1);
}

/// A finalized rank is permanent, with exactly two exceptions: a reset
/// (the initiator leaves as `Propagating`), or the initiator is the
/// leader's rank-distributing walk meeting a phase authority on "heads"
/// while its value still lies within that phase's range length — where an
/// electing responder, or a dormant one about to wake, counts as the
/// authority of phase 1 it is bridged into.
pub proof fn lemma_rank_stability(p: Protocol, r: usize, v: State, v_coin: Option<bool>)
    requires
        p.wf(),
        1 <= p.num_phases,
        1 <= r <= p.n,
        v.wf(p.num_phases, p.n),
        (v_coin is None <==> v.spec_is_ranked()),
    ensures
        ({
            let u_out = p.interact_spec(State::Rank(r), v, v_coin).0;
            ||| u_out == State::Rank(r)
            ||| u_out matches State::Propagating(_)
            ||| (v_coin == Some(true) && match v {
                State::Phase(k, _) => r <= p.range_lengths@[k as int],
                State::LE(_) => r <= p.range_lengths@[1],
                State::Dormant(cool_down) => cool_down == 1 && r <= p.range_lengths@[1],
                _ => false,
            })
        }),
{
}

} // verus!
