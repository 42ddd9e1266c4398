use vstd::prelude::*;
use crate::team::Team;
use crate::registry::Registry;

verus! {

/// Team `a` is ranked ahead of team `b`: a higher overall score, or an equal
/// score and an earlier place in the roster.
pub open spec fn ranks_before(teams: Seq<Team>, a: int, b: int) -> bool {
    teams[a].overall_score > teams[b].overall_score
        || (teams[a].overall_score == teams[b].overall_score && a < b)
}

/// `order` lists positions of `teams`, each below `teams.len()`, and every
/// entry is ranked ahead of every later one.
pub open spec fn is_ranking(teams: Seq<Team>, order: Seq<usize>) -> bool {
    &&& forall|k: int| 0 <= k < order.len() ==> (#[trigger] order[k]) < teams.len()
    &&& forall|i: int, j: int| 0 <= i < j < order.len() ==> ranks_before(teams, #[trigger] order[i] as int, #[trigger] order[j] as int)
}

/// Position `t` occurs in `order`.
pub open spec fn occurs(order: Seq<usize>, t: int) -> bool {
    exists|k: int| 0 <= k < order.len() && order[k] == t
}

/// Every position below `n` occurs in `order`.
pub open spec fn covers(order: Seq<usize>, n: int) -> bool {
    forall|t: int| 0 <= t < n ==> #[trigger] occurs(order, t)
}

/// The roster positions of the teams from first to last: by overall score,
/// highest first, and in roster order among equal scores. Every team occurs
/// once: each position below `teams.len()` occurs, and since every entry ranks
/// ahead of every later one, none repeats.
pub fn rank_order(teams: &Vec<Team>) -> (r: Vec<usize>)
    ensures
        r@.len() == teams@.len(),
        is_ranking(teams@, r@),
        covers(r@, teams@.len() as int),
{
    let mut out: Vec<usize> = Vec::new();
    let mut i: usize = 0;
    while i < teams.len()
        invariant
            i <= teams@.len(),
            out@.len() == i,
            forall|k: int| 0 <= k < out@.len() ==> (#[trigger] out@[k]) < i,
            is_ranking(teams@, out@),
            covers(out@, i as int),
        decreases teams@.len() - i,
    {
        let score = teams[i].overall_score;
        let mut p: usize = 0;
        while p < out.len() && teams[out[p]].overall_score >= score
            invariant
                i < teams@.len(),
                out@.len() == i,
                p <= out@.len(),
                forall|k: int| 0 <= k < out@.len() ==> (#[trigger] out@[k]) < i,
                is_ranking(teams@, out@),
                score == teams@[i as int].overall_score,
                forall|q: int| 0 <= q < p ==> ranks_before(teams@, #[trigger] out@[q] as int, i as int),
            decreases out@.len() - p,
        {
            p = p + 1;
        }
        let ghost before = out@;
        proof {
            assert forall|q: int| p <= q < before.len() implies ranks_before(teams@, i as int, #[trigger] before[q] as int) by {
                if q > p {
                    assert(ranks_before(teams@, before[p as int] as int, before[q] as int));
                }
            }
        }
        out.insert(p, i);
        proof {
            assert forall|t: int| 0 <= t < i + 1 implies #[trigger] occurs(out@, t) by {
                if t == i {
                    assert(out@[p as int] == t);
                } else {
                    assert(occurs(before, t));
                    let k = choose|k: int| 0 <= k < before.len() && before[k] == t;
                    if k < p {
                        assert(out@[k] == t);
                    } else {
                        assert(out@[k + 1] == t);
                    }
                }
            }
            assert forall|k: int| 0 <= k < out@.len() implies (#[trigger] out@[k]) < i + 1 by {
                if k < p {
                    assert(out@[k] == before[k]);
                } else if k > p {
                    assert(out@[k] == before[k - 1]);
                }
            }
            assert forall|a: int, b: int| 0 <= a < b < out@.len() implies
                ranks_before(teams@, #[trigger] out@[a] as int, #[trigger] out@[b] as int) by {
                if a < p && b < p {
                    assert(out@[a] == before[a] && out@[b] == before[b]);
                } else if a < p && b == p {
                    assert(out@[a] == before[a]);
                } else if a < p {
                    assert(out@[a] == before[a] && out@[b] == before[b - 1]);
                } else if a == p {
                    assert(out@[b] == before[b - 1]);
                } else {
                    assert(out@[a] == before[a - 1] && out@[b] == before[b - 1]);
                }
            }
        }
        i = i + 1;
    }
    out
}

/// How a team's rank moved since the prior seeding.
#[derive(Clone, Copy, Debug, PartialEq, Eq, Structural)]
pub enum Delta {
    /// No prior rank, or the same rank as before.
    NoChange,
    /// The team now stands this many places higher (a smaller rank number).
    Rose(u64),
    /// The team now stands this many places lower (a larger rank number).
    Fell(u64),
}

/// With `delta = previous_rank - position`: a positive delta is a rise, a
/// negative one a fall, and a previous rank of 0 (no prior data) is no change.
pub open spec fn delta_spec(previous_rank: int, position: int) -> Delta {
    if previous_rank == 0 || previous_rank == position {
        Delta::NoChange
    } else if previous_rank > position {
        Delta::Rose((previous_rank - position) as u64)
    } else {
        Delta::Fell((position - previous_rank) as u64)
    }
}

/// The movement of a team now at 1-based `position` whose previous rank was
/// `previous_rank`.
pub fn rank_delta(previous_rank: u64, position: u64) -> (r: Delta)
    ensures
        r == delta_spec(previous_rank as int, position as int),
{
    if previous_rank == 0 || previous_rank == position {
        Delta::NoChange
    } else if previous_rank > position {
        Delta::Rose(previous_rank - position)
    } else {
        Delta::Fell(position - previous_rank)
    }
}

/// One line of the final seeding.
#[derive(Clone, Copy, Debug, PartialEq, Eq, Structural)]
pub struct Standing {
    /// The team's position in the registry.
    pub team: usize,
    /// The 1-based rank.
    pub rank: u64,
    pub delta: Delta,
}

/// The final seeding: one standing per team, best first, each with its rank
/// and its movement since the prior seeding.
pub fn standings(registry: &Registry) -> (r: Vec<Standing>)
    ensures
        r@.len() == registry@.len(),
        is_ranking(registry@, r@.map_values(|s: Standing| s.team)),
        covers(r@.map_values(|s: Standing| s.team), registry@.len() as int),
        forall|k: int| 0 <= k < r@.len() ==> {
            &&& (#[trigger] r@[k]).rank == k + 1
            &&& r@[k].delta == delta_spec(registry@[r@[k].team as int].previous_rank as int, k + 1)
        },
{
    let teams = registry.teams();
    let order = rank_order(teams);
    let mut out: Vec<Standing> = Vec::new();
    let mut k: usize = 0;
    while k < order.len()
        invariant
            teams@ == registry@,
            order@.len() == teams@.len(),
            is_ranking(teams@, order@),
            covers(order@, teams@.len() as int),
            k <= order@.len(),
            out@.len() == k,
            forall|q: int| 0 <= q < k ==> {
                &&& (#[trigger] out@[q]).team == order@[q]
                &&& out@[q].rank == q + 1
                &&& out@[q].delta == delta_spec(teams@[order@[q] as int].previous_rank as int, q + 1)
            },
        decreases order@.len() - k,
    {
        let t = order[k];
        let rank: u64 = k as u64 + 1;
        let delta = rank_delta(teams[t].previous_rank, rank);
        out.push(Standing { team: t, rank, delta });
        k = k + 1;
    }
    proof {
        assert(out@.map_values(|s: Standing| s.team) =~= order@);
    }
    out
}

} // verus!
