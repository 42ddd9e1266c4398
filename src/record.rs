use vstd::prelude::*;
use crate::team::{Stats, add_stats, zero_stats};

verus! {

/// One game result. The outcome follows from the scores: equal scores are a
/// tie, otherwise the side with the higher score won.
pub struct GameRecord {
    pub left: String,
    pub right: String,
    pub left_score: u64,
    pub right_score: u64,
}

/// One line of a prior seeding: a 1-based rank for a mascot.
pub struct SeedRecord {
    pub rank: u64,
    pub name: String,
    pub mascot: String,
}

/// One roster line: a team's display name and its mascot.
pub struct RosterEntry {
    pub name: String,
    pub mascot: String,
}

pub open spec fn flag(b: bool) -> int {
    if b { 1 } else { 0 }
}

/// What one game adds to a team that stands on its left side, its right side,
/// or both.
pub open spec fn side_delta(on_left: bool, on_right: bool, ls: int, rs: int) -> Stats {
    Stats {
        wins: flag(on_left && ls > rs) + flag(on_right && rs > ls),
        losses: flag(on_left && ls < rs) + flag(on_right && rs < ls),
        ties: flag(on_left && ls == rs) + flag(on_right && ls == rs),
        points_for: (if on_left { ls } else { 0 }) + (if on_right { rs } else { 0 }),
        points_against: (if on_left { rs } else { 0 }) + (if on_right { ls } else { 0 }),
    }
}

/// What one game adds to the counters of the team with mascot `m`.
/// A team on both sides of a game gets both sides' changes.
pub open spec fn game_delta(g: GameRecord, m: Seq<char>) -> Stats {
    side_delta(g.left@ == m, g.right@ == m, g.left_score as int, g.right_score as int)
}

/// What a sequence of games adds to the counters of the team with mascot `m`.
pub open spec fn season_delta(games: Seq<GameRecord>, m: Seq<char>) -> Stats
    decreases games.len(),
{
    if games.len() == 0 {
        zero_stats()
    } else {
        add_stats(season_delta(games.drop_last(), m), game_delta(games.last(), m))
    }
}

/// The number of game records that name mascot `m` on either side.
pub open spec fn references(games: Seq<GameRecord>, m: Seq<char>) -> int
    decreases games.len(),
{
    if games.len() == 0 {
        0
    } else {
        references(games.drop_last(), m) + flag(games.last().left@ == m || games.last().right@ == m)
    }
}

pub proof fn lemma_season_delta_nonneg(games: Seq<GameRecord>, m: Seq<char>)
    ensures
        ({
            let d = season_delta(games, m);
            d.wins >= 0 && d.losses >= 0 && d.ties >= 0 && d.points_for >= 0 && d.points_against >= 0
        }),
    decreases games.len(),
{
    if games.len() > 0 {
        lemma_season_delta_nonneg(games.drop_last(), m);
    }
}

/// Counters only grow: the games of a prefix add no more than the whole season.
pub proof fn lemma_season_delta_prefix(games: Seq<GameRecord>, j: int, m: Seq<char>)
    requires
        0 <= j <= games.len(),
    ensures
        ({
            let p = season_delta(games.take(j), m);
            let d = season_delta(games, m);
            p.wins <= d.wins && p.losses <= d.losses && p.ties <= d.ties
                && p.points_for <= d.points_for && p.points_against <= d.points_against
        }),
    decreases games.len() - j,
{
    if j < games.len() {
        lemma_season_delta_prefix(games, j + 1, m);
        assert(games.take(j + 1).drop_last() =~= games.take(j));
    } else {
        assert(games.take(j) =~= games);
    }
}

/// Record totals: with no team playing itself, the games a season adds to a
/// team are exactly the game records that name its mascot.
pub proof fn lemma_record_totals(games: Seq<GameRecord>, m: Seq<char>)
    requires
        forall|i: int| 0 <= i < games.len() ==> games[i].left@ != games[i].right@,
    ensures
        crate::team::games_of(season_delta(games, m)) == references(games, m),
    decreases games.len(),
{
    if games.len() > 0 {
        lemma_record_totals(games.drop_last(), m);
    }
}

} // verus!
