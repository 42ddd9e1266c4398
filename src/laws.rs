use vstd::prelude::*;
use crate::record::{GameRecord, SeedRecord, lemma_record_totals, references, season_delta};
use crate::registry::{advanced, game_applied, knows, mascots_distinct, season_applied, seed_rank};
use crate::rank::{Delta, delta_spec, is_ranking};
use crate::team::{Team, games_of, zero_stats};

verus! {

/// The sum of `points_for` over all teams.
pub open spec fn total_for(teams: Seq<Team>) -> int
    decreases teams.len(),
{
    if teams.len() == 0 {
        0
    } else {
        total_for(teams.drop_last()) + teams.last().points_for
    }
}

/// The sum of `points_against` over all teams.
pub open spec fn total_against(teams: Seq<Team>) -> int
    decreases teams.len(),
{
    if teams.len() == 0 {
        0
    } else {
        total_against(teams.drop_last()) + teams.last().points_against
    }
}

/// The number of teams whose mascot is `m`.
pub open spec fn mascot_count(teams: Seq<Team>, m: Seq<char>) -> int
    decreases teams.len(),
{
    if teams.len() == 0 {
        0
    } else {
        mascot_count(teams.drop_last(), m) + (if teams.last().mascot@ == m { 1int } else { 0 })
    }
}

proof fn lemma_count_absent(teams: Seq<Team>, m: Seq<char>)
    requires
        !knows(teams, m),
    ensures
        mascot_count(teams, m) == 0,
    decreases teams.len(),
{
    if teams.len() > 0 {
        let r = teams.drop_last();
        assert(!knows(r, m)) by {
            if knows(r, m) {
                let w = choose|w: int| 0 <= w < r.len() && r[w].mascot@ == m;
                assert(teams[w] == r[w]);
            }
        }
        assert(teams.last() == teams[teams.len() - 1]);
        lemma_count_absent(r, m);
    }
}

proof fn lemma_count_unique(teams: Seq<Team>, m: Seq<char>)
    requires
        mascots_distinct(teams),
        knows(teams, m),
    ensures
        mascot_count(teams, m) == 1,
    decreases teams.len(),
{
    let r = teams.drop_last();
    let n = teams.len() - 1;
    assert(teams.last() == teams[n]);
    assert(mascots_distinct(r)) by {
        assert forall|i: int, j: int| 0 <= i < j < r.len() implies r[i].mascot@ != r[j].mascot@ by {
            assert(r[i] == teams[i] && r[j] == teams[j]);
        }
    }
    if teams.last().mascot@ == m {
        assert(!knows(r, m)) by {
            if knows(r, m) {
                let w = choose|w: int| 0 <= w < r.len() && r[w].mascot@ == m;
                assert(teams[w] == r[w]);
            }
        }
        lemma_count_absent(r, m);
    } else {
        let w = choose|w: int| 0 <= w < teams.len() && teams[w].mascot@ == m;
        assert(r[w] == teams[w]);
        lemma_count_unique(r, m);
    }
}

proof fn lemma_game_totals(before: Seq<Team>, after: Seq<Team>, g: GameRecord)
    requires
        game_applied(before, after, g),
    ensures
        total_for(after) == total_for(before) + g.left_score * mascot_count(before, g.left@)
            + g.right_score * mascot_count(before, g.right@),
        total_against(after) == total_against(before) + g.right_score * mascot_count(before, g.left@)
            + g.left_score * mascot_count(before, g.right@),
    decreases before.len(),
{
    if before.len() > 0 {
        let n = before.len() - 1;
        assert(game_applied(before.drop_last(), after.drop_last(), g)) by {
            assert forall|k: int| 0 <= k < n implies
                advanced(before.drop_last()[k], #[trigger] after.drop_last()[k], crate::record::game_delta(g, before.drop_last()[k].mascot@)) by {
                assert(advanced(before[k], after[k], crate::record::game_delta(g, before[k].mascot@)));
            }
        }
        lemma_game_totals(before.drop_last(), after.drop_last(), g);
        assert(advanced(before[n], after[n], crate::record::game_delta(g, before[n].mascot@)));
        assert(before.last() == before[n] && after.last() == after[n]);
        let cl = mascot_count(before.drop_last(), g.left@);
        let cr = mascot_count(before.drop_last(), g.right@);
        let ls = g.left_score as int;
        let rs = g.right_score as int;
        assert(ls * mascot_count(before, g.left@) == ls * cl + (if before[n].mascot@ == g.left@ { ls } else { 0 })) by (nonlinear_arith)
            requires
                mascot_count(before, g.left@) == cl + (if before[n].mascot@ == g.left@ { 1int } else { 0 }),
        ;
        assert(rs * mascot_count(before, g.right@) == rs * cr + (if before[n].mascot@ == g.right@ { rs } else { 0 })) by (nonlinear_arith)
            requires
                mascot_count(before, g.right@) == cr + (if before[n].mascot@ == g.right@ { 1int } else { 0 }),
        ;
        assert(rs * mascot_count(before, g.left@) == rs * cl + (if before[n].mascot@ == g.left@ { rs } else { 0 })) by (nonlinear_arith)
            requires
                mascot_count(before, g.left@) == cl + (if before[n].mascot@ == g.left@ { 1int } else { 0 }),
        ;
        assert(ls * mascot_count(before, g.right@) == ls * cr + (if before[n].mascot@ == g.right@ { ls } else { 0 })) by (nonlinear_arith)
            requires
                mascot_count(before, g.right@) == cr + (if before[n].mascot@ == g.right@ { 1int } else { 0 }),
        ;
    }
}

/// Conservation: folding one game into a registry with distinct mascots that
/// knows both sides raises the sum of points-for over all teams by the two
/// scores together, and the sum of points-against by the same amount.
pub proof fn lemma_game_conserves_points(before: Seq<Team>, after: Seq<Team>, g: GameRecord)
    requires
        mascots_distinct(before),
        knows(before, g.left@),
        knows(before, g.right@),
        game_applied(before, after, g),
    ensures
        total_for(after) == total_for(before) + g.left_score + g.right_score,
        total_against(after) == total_against(before) + g.left_score + g.right_score,
{
    lemma_game_totals(before, after, g);
    lemma_count_unique(before, g.left@);
    lemma_count_unique(before, g.right@);
}

/// Record totals: after a season is folded into teams that started with no
/// games, and with no team playing itself, each team's wins, losses and ties
/// add up to the number of game records that name its mascot.
pub proof fn lemma_season_record_totals(before: Seq<Team>, after: Seq<Team>, games: Seq<GameRecord>, k: int)
    requires
        season_applied(before, after, games),
        0 <= k < before.len(),
        before[k].stats() == zero_stats(),
        forall|i: int| 0 <= i < games.len() ==> games[i].left@ != games[i].right@,
    ensures
        games_of(after[k].stats()) == references(games, before[k].mascot@),
{
    lemma_record_totals(games, before[k].mascot@);
    assert(advanced(before[k], after[k], season_delta(games, before[k].mascot@)));
}

/// Stable tie-break: in a ranking, two teams with the same overall score stand
/// in roster order.
pub proof fn lemma_equal_scores_keep_roster_order(teams: Seq<Team>, order: Seq<usize>, i: int, j: int)
    requires
        is_ranking(teams, order),
        0 <= i < j < order.len(),
        teams[order[i] as int].overall_score == teams[order[j] as int].overall_score,
    ensures
        order[i] < order[j],
{
    assert(crate::rank::ranks_before(teams, order[i] as int, order[j] as int));
}

/// Delta sentinel: a team that no prior-seeding record names keeps its previous
/// rank; when that rank is 0, its delta is no change at every position.
pub proof fn lemma_unseeded_team_no_change(seeds: Seq<SeedRecord>, m: Seq<char>, position: int)
    requires
        forall|i: int| 0 <= i < seeds.len() ==> seeds[i].mascot@ != m,
    ensures
        seed_rank(seeds, m, 0) == 0,
        delta_spec(seed_rank(seeds, m, 0), position) == Delta::NoChange,
    decreases seeds.len(),
{
    if seeds.len() > 0 {
        assert(seeds.last() == seeds[seeds.len() - 1]);
        lemma_unseeded_team_no_change(seeds.drop_last(), m, position);
    }
}

} // verus!
