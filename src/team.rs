use vstd::prelude::*;

verus! {

/// Per-team statistics accumulated over a season.
pub struct Team {
    pub name: String,
    pub mascot: String,
    pub wins: u64,
    pub losses: u64,
    pub ties: u64,
    pub points_for: u64,
    pub points_against: u64,
    /// 1-based rank from a prior seeding; 0 means the team has no prior rank.
    pub previous_rank: u64,
    pub overall_score: u128,
}

/// The counters of a team, as mathematical integers.
pub struct Stats {
    pub wins: int,
    pub losses: int,
    pub ties: int,
    pub points_for: int,
    pub points_against: int,
}

pub open spec fn zero_stats() -> Stats {
    Stats { wins: 0, losses: 0, ties: 0, points_for: 0, points_against: 0 }
}

pub open spec fn add_stats(a: Stats, b: Stats) -> Stats {
    Stats {
        wins: a.wins + b.wins,
        losses: a.losses + b.losses,
        ties: a.ties + b.ties,
        points_for: a.points_for + b.points_for,
        points_against: a.points_against + b.points_against,
    }
}

pub open spec fn games_of(s: Stats) -> int {
    s.wins + s.losses + s.ties
}

/// The counters fit the machine types of a team: games played and both point
/// totals fit in a `u64`.
pub open spec fn fits(s: Stats) -> bool {
    &&& 0 <= s.wins && 0 <= s.losses && 0 <= s.ties
    &&& games_of(s) <= u64::MAX
    &&& 0 <= s.points_for <= u64::MAX
    &&& 0 <= s.points_against <= u64::MAX
}

impl Team {
    pub open spec fn stats(&self) -> Stats {
        Stats {
            wins: self.wins as int,
            losses: self.losses as int,
            ties: self.ties as int,
            points_for: self.points_for as int,
            points_against: self.points_against as int,
        }
    }

    pub open spec fn well_formed(&self) -> bool {
        games_of(self.stats()) <= u64::MAX
    }

    /// The composite score this team's counters call for.
    pub open spec fn score_spec(&self) -> int {
        crate::score::overall_score_spec(
            self.wins as int,
            self.losses as int,
            self.ties as int,
            self.points_for as int,
            self.points_against as int,
        )
    }

    /// A team with every counter at zero.
    pub fn new(name: String, mascot: String) -> (t: Team)
        ensures
            t.name == name,
            t.mascot == mascot,
            t.stats() == zero_stats(),
            t.previous_rank == 0,
            t.overall_score == 0,
            t.well_formed(),
    {
        Team {
            name,
            mascot,
            wins: 0,
            losses: 0,
            ties: 0,
            points_for: 0,
            points_against: 0,
            previous_rank: 0,
            overall_score: 0,
        }
    }

    pub fn games_played(&self) -> (r: u64)
        requires
            self.well_formed(),
        ensures
            r == games_of(self.stats()),
    {
        self.wins + self.losses + self.ties
    }
}

} // verus!
