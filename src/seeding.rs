use vstd::prelude::*;
use crate::parse::{
    GameLine, LineError, SeedLine, game_entries, game_line_spec, game_view, game_views, seed_views, line_views, parse_games,
    parse_roster, parse_seeds, roster_entries, seed_entries, seed_line_spec, seed_view,
};
use crate::rank::{Standing, covers, delta_spec, is_ranking, standings};
use crate::record::{GameRecord, RosterEntry, SeedRecord, season_delta};
use crate::registry::{Registry, RecordError, SeedingError, is_fresh, knows, seed_rank};
use crate::team::{add_stats, fits, zero_stats};

verus! {

/// Why a seeding run stopped.
pub enum SeedingFailure {
    /// The roster names a mascot twice.
    Roster(RecordError),
    /// A game line holds a refused field.
    GameLine(LineError),
    /// A game names an unknown mascot, or a team's totals overflow.
    Game(RecordError),
    /// A prior-seeding line holds a rank that does not fit.
    SeedLine(LineError),
    /// A prior-seeding line names an unknown mascot.
    Seed(RecordError),
}

/// Some roster entry has mascot `m`.
pub open spec fn roster_knows(entries: Seq<(Seq<char>, Seq<char>)>, m: Seq<char>) -> bool {
    exists|k: int| 0 <= k < entries.len() && (#[trigger] entries[k]).1 == m
}

/// No two roster entries share a mascot.
pub open spec fn roster_distinct(entries: Seq<(Seq<char>, Seq<char>)>) -> bool {
    forall|i: int, j: int| 0 <= i < j < entries.len() ==> entries[i].1 != entries[j].1
}

/// None of the first `n` game lines holds a refused field.
pub open spec fn no_refused_games(lines: Seq<String>, n: int) -> bool {
    forall|i: int| 0 <= i < n ==> !(game_line_spec(#[trigger] lines[i]@) is Bad)
}

/// None of the first `n` prior-seeding lines holds a refused field.
pub open spec fn no_refused_seeds(lines: Seq<String>, n: int) -> bool {
    forall|i: int| 0 <= i < n ==> !(seed_line_spec(#[trigger] lines[i]@) is Bad)
}

/// The first `n` games name only mascots of the roster.
pub open spec fn games_known(entries: Seq<(Seq<char>, Seq<char>)>, found: Seq<GameLine>, n: int) -> bool {
    forall|j: int| 0 <= j < n ==> roster_knows(entries, (#[trigger] found[j])->left) && roster_knows(entries, found[j]->right)
}

/// The first `n` prior-seeding records name only mascots of the roster.
pub open spec fn seeds_known(entries: Seq<(Seq<char>, Seq<char>)>, found: Seq<SeedLine>, n: int) -> bool {
    forall|j: int| 0 <= j < n ==> roster_knows(entries, (#[trigger] found[j])->mascot)
}

/// The roster and game files pass: distinct mascots, no refused game line,
/// only known mascots, and every team's season totals within range.
pub open spec fn games_accepted(roster: Seq<String>, games: Seq<String>) -> bool {
    let entries = roster_entries(line_views(roster));
    let found = game_entries(line_views(games));
    &&& roster_distinct(entries)
    &&& no_refused_games(games, games.len() as int)
    &&& games_known(entries, found, found.len() as int)
    &&& exists|gs: Seq<GameRecord>| {
        &&& #[trigger] game_views(gs) == found
        &&& forall|k: int| 0 <= k < entries.len() ==> fits(#[trigger] season_delta(gs, entries[k].1))
    }
}

/// Computes the seeding from the lines of a roster file, a game file and an
/// optional prior-seeding file: teams in roster order with their season
/// totals, scores and prior ranks, and the ranked standings.
pub fn compute_seeding(roster: &Vec<String>, games: &Vec<String>, prior: Option<&Vec<String>>) -> (r: Result<(Registry, Vec<Standing>), SeedingFailure>)
    ensures
        match r {
            Ok((reg, st)) => {
                let entries = roster_entries(line_views(roster@));
                &&& reg.well_formed()
                &&& reg@.len() == entries.len()
                &&& forall|k: int| 0 <= k < reg@.len() ==> (#[trigger] reg@[k]).name@ == entries[k].0 && reg@[k].mascot@ == entries[k].1
                &&& exists|gs: Seq<GameRecord>| {
                    &&& #[trigger] game_views(gs) == game_entries(line_views(games@))
                    &&& forall|k: int| 0 <= k < reg@.len() ==> (#[trigger] reg@[k]).stats() == season_delta(gs, reg@[k].mascot@)
                }
                &&& forall|k: int| 0 <= k < reg@.len() ==> (#[trigger] reg@[k]).overall_score == reg@[k].score_spec()
                &&& match prior {
                    None => forall|k: int| 0 <= k < reg@.len() ==> (#[trigger] reg@[k]).previous_rank == 0,
                    Some(p) => exists|ss: Seq<SeedRecord>| {
                        &&& #[trigger] seed_views(ss) == seed_entries(line_views(p@))
                        &&& forall|k: int| 0 <= k < reg@.len() ==> (#[trigger] reg@[k]).previous_rank == seed_rank(ss, reg@[k].mascot@, 0)
                    },
                }
                &&& st@.len() == reg@.len()
                &&& is_ranking(reg@, st@.map_values(|s: Standing| s.team))
                &&& covers(st@.map_values(|s: Standing| s.team), reg@.len() as int)
                &&& forall|k: int| 0 <= k < st@.len() ==> {
                    &&& (#[trigger] st@[k]).rank == k + 1
                    &&& st@[k].delta == delta_spec(reg@[st@[k].team as int].previous_rank as int, k + 1)
                }
            },
            Err(SeedingFailure::Roster(e)) => {
                let entries = roster_entries(line_views(roster@));
                &&& e.record < entries.len()
                &&& exists|i: int| 0 <= i < e.record && (#[trigger] entries[i]).1 == entries[e.record as int].1
                &&& roster_distinct(entries.take(e.record as int))
                &&& match e.error {
                    SeedingError::DuplicateMascot { mascot } => mascot@ == entries[e.record as int].1,
                    _ => false,
                }
            },
            Err(SeedingFailure::GameLine(e)) => {
                &&& roster_distinct(roster_entries(line_views(roster@)))
                &&& 1 <= e.line <= games@.len()
                &&& game_line_spec(games@[e.line - 1]@) == GameLine::Bad(e.field)
                &&& no_refused_games(games@, e.line - 1)
            },
            Err(SeedingFailure::Game(e)) => {
                let entries = roster_entries(line_views(roster@));
                let found = game_entries(line_views(games@));
                let g = found[e.record as int];
                &&& roster_distinct(entries)
                &&& no_refused_games(games@, games@.len() as int)
                &&& e.record < found.len()
                &&& games_known(entries, found, e.record as int)
                &&& match e.error {
                    SeedingError::UnknownMascot { mascot } => {
                        ||| g->left == mascot@ && !roster_knows(entries, mascot@)
                        ||| roster_knows(entries, g->left) && g->right == mascot@ && !roster_knows(entries, mascot@)
                    },
                    SeedingError::StatOverflow { .. } => {
                        &&& roster_knows(entries, g->left)
                        &&& roster_knows(entries, g->right)
                        &&& exists|gs: Seq<GameRecord>| {
                            &&& #[trigger] game_views(gs) == found
                            &&& forall|k: int| 0 <= k < entries.len() ==> fits(#[trigger] season_delta(gs.take(e.record as int), entries[k].1))
                            &&& exists|k: int| 0 <= k < entries.len() && !fits(#[trigger] season_delta(gs.take(e.record + 1), entries[k].1))
                        }
                    },
                    SeedingError::DuplicateMascot { .. } => false,
                }
            },
            Err(SeedingFailure::SeedLine(e)) => {
                &&& games_accepted(roster@, games@)
                &&& prior is Some
                &&& 1 <= e.line <= prior->0@.len()
                &&& seed_line_spec(prior->0@[e.line - 1]@) == SeedLine::Bad(e.field)
                &&& no_refused_seeds(prior->0@, e.line - 1)
            },
            Err(SeedingFailure::Seed(e)) => {
                let entries = roster_entries(line_views(roster@));
                let found = seed_entries(line_views(prior->0@));
                &&& games_accepted(roster@, games@)
                &&& prior is Some
                &&& no_refused_seeds(prior->0@, prior->0@.len() as int)
                &&& e.record < found.len()
                &&& seeds_known(entries, found, e.record as int)
                &&& match e.error {
                    SeedingError::UnknownMascot { mascot } =>
                        found[e.record as int]->mascot == mascot@ && !roster_knows(entries, mascot@),
                    _ => false,
                }
            },
        },
{
    let entries = parse_roster(roster);
    proof {
        assert(entries@.len() == entries@.map_values(|e: RosterEntry| (e.name@, e.mascot@)).len());
    }
    let mut reg = match Registry::from_roster(&entries) {
        Ok(reg) => reg,
        Err(e) => {
            proof {
                let es = entries@.map_values(|e: RosterEntry| (e.name@, e.mascot@));
                let i = choose|i: int| 0 <= i < e.record && (#[trigger] entries@[i]).mascot@ == entries@[e.record as int].mascot@;
                assert(es[i].1 == es[e.record as int].1);
            }
            return Err(SeedingFailure::Roster(e));
        },
    };
    let ghost fresh = reg@;
    proof {
        let es = entries@.map_values(|e: RosterEntry| (e.name@, e.mascot@));
        assert forall|k: int| 0 <= k < reg@.len() implies (#[trigger] reg@[k]).name@ == es[k].0 && reg@[k].mascot@ == es[k].1 by {
            assert(is_fresh(reg@[k], entries@[k].name@, entries@[k].mascot@));
        }
        assert(roster_distinct(es)) by {
            assert forall|i: int, j: int| 0 <= i < j < es.len() implies es[i].1 != es[j].1 by {
                assert(es[i].1 == entries@[i].mascot@ && es[j].1 == entries@[j].mascot@);
            }
        }
        assert forall|m: Seq<char>| knows(fresh, m) <==> roster_knows(es, m) by {
            if knows(fresh, m) {
                let k = choose|k: int| 0 <= k < fresh.len() && fresh[k].mascot@ == m;
                assert(es[k].1 == m);
            }
            if roster_knows(es, m) {
                let k = choose|k: int| 0 <= k < es.len() && (#[trigger] es[k]).1 == m;
                assert(fresh[k].mascot@ == m);
            }
        }
    }
    let records = match parse_games(games) {
        Ok(v) => v,
        Err(e) => {
            return Err(SeedingFailure::GameLine(e));
        },
    };
    proof {
        assert(records@.len() == records@.map_values(|g: GameRecord| game_view(g)).len());
    }
    let ghost es = entries@.map_values(|e: RosterEntry| (e.name@, e.mascot@));
    let ghost found = game_entries(line_views(games@));
    proof {
        assert(game_views(records@) == found);
    }
    let outcome = reg.record_games(&records);
    let ghost done: int = match outcome {
        Ok(()) => records@.len() as int,
        Err(ref e) => e.record as int,
    };
    proof {
        assert(games_known(es, found, done)) by {
            assert forall|j: int| 0 <= j < done implies
                roster_knows(es, (#[trigger] found[j])->left) && roster_knows(es, found[j]->right) by {
                assert(records@.take(done)[j] == records@[j]);
                assert(game_views(records@)[j] == game_view(records@[j]));
                assert(knows(fresh, records@[j].left@) && knows(fresh, records@[j].right@));
            }
        }
        assert forall|k: int| 0 <= k < es.len() implies fits(#[trigger] season_delta(records@.take(done), es[k].1)) by {
            assert(is_fresh(fresh[k], entries@[k].name@, entries@[k].mascot@));
            assert(reg@[k].well_formed());
            assert(reg@[k].stats() == add_stats(fresh[k].stats(), season_delta(records@.take(done), fresh[k].mascot@)));
        }
    }
    match outcome {
        Ok(()) => {
            proof {
                assert(records@.take(done) =~= records@);
                assert(exists|gs: Seq<GameRecord>| {
                    &&& #[trigger] game_views(gs) == found
                    &&& forall|k: int| 0 <= k < es.len() ==> fits(#[trigger] season_delta(gs, es[k].1))
                });
            }
        },
        Err(e) => {
            proof {
                let j = e.record as int;
                assert(game_views(records@)[j] == game_view(records@[j]));
                match e.error {
                    SeedingError::StatOverflow { .. } => {
                        let k = choose|k: int| 0 <= k < fresh.len()
                            && !fits(#[trigger] add_stats(fresh[k].stats(), season_delta(records@.take(j + 1), fresh[k].mascot@)));
                        assert(is_fresh(fresh[k], entries@[k].name@, entries@[k].mascot@));
                        assert(es[k].1 == fresh[k].mascot@);
                        assert(!fits(season_delta(records@.take(j + 1), es[k].1)));
                        assert(exists|gs: Seq<GameRecord>| {
                            &&& #[trigger] game_views(gs) == found
                            &&& forall|k: int| 0 <= k < es.len() ==> fits(#[trigger] season_delta(gs.take(j), es[k].1))
                            &&& exists|k: int| 0 <= k < es.len() && !fits(#[trigger] season_delta(gs.take(j + 1), es[k].1))
                        });
                    },
                    _ => {},
                }
            }
            return Err(SeedingFailure::Game(e));
        },
    }
    proof {
        assert(records@.take(records@.len() as int) =~= records@);
        assert forall|k: int| 0 <= k < reg@.len() implies (#[trigger] reg@[k]).stats() == season_delta(records@, reg@[k].mascot@) by {
            assert(is_fresh(fresh[k], entries@[k].name@, entries@[k].mascot@));
            assert(reg@[k].stats() == add_stats(zero_stats(), season_delta(records@, fresh[k].mascot@)));
        }
    }
    let ghost played = reg@;
    reg.compute_scores();
    let ghost scored = reg@;
    match prior {
        Some(p) => {
            let seeds = match parse_seeds(p) {
                Ok(v) => v,
                Err(e) => {
                    return Err(SeedingFailure::SeedLine(e));
                },
            };
            proof {
                assert(seeds@.len() == seeds@.map_values(|e: SeedRecord| seed_view(e)).len());
            }
            match reg.apply_seeding(&seeds) {
                Ok(()) => {},
                Err(e) => {
                    proof {
                        let es = entries@.map_values(|e: RosterEntry| (e.name@, e.mascot@));
                        let j = e.record as int;
                        assert(seed_views(seeds@)[j] == seed_view(seeds@[j]));
                        assert(seed_views(seeds@) == seed_entries(line_views(p@)));
                        assert(!knows(fresh, seeds@[j].mascot@)) by {
                            if knows(fresh, seeds@[j].mascot@) {
                                let k = choose|k: int| 0 <= k < fresh.len() && fresh[k].mascot@ == seeds@[j].mascot@;
                                assert(scored[k].mascot == played[k].mascot);
                            }
                        }
                    }
                    return Err(SeedingFailure::Seed(e));
                },
            }
            proof {
                assert(seeds@.take(seeds@.len() as int) =~= seeds@);
                assert(seed_views(seeds@) == seed_entries(line_views(p@)));
                assert forall|k: int| 0 <= k < reg@.len() implies (#[trigger] reg@[k]).previous_rank == seed_rank(seeds@, reg@[k].mascot@, 0) by {
                    assert(is_fresh(fresh[k], entries@[k].name@, entries@[k].mascot@));
                    assert(scored[k].previous_rank == played[k].previous_rank);
                    assert(reg@[k].mascot == scored[k].mascot);
                }
                assert(exists|ss: Seq<SeedRecord>| {
                    &&& #[trigger] seed_views(ss) == seed_entries(line_views(p@))
                    &&& forall|k: int| 0 <= k < reg@.len() ==> (#[trigger] reg@[k]).previous_rank == seed_rank(ss, reg@[k].mascot@, 0)
                });
            }
        },
        None => {
            proof {
                assert forall|k: int| 0 <= k < reg@.len() implies (#[trigger] reg@[k]).previous_rank == 0 by {
                    assert(is_fresh(fresh[k], entries@[k].name@, entries@[k].mascot@));
                    assert(scored[k].previous_rank == played[k].previous_rank);
                }
            }
        },
    }
    proof {
        let es = roster_entries(line_views(roster@));
        assert(game_views(records@) == game_entries(line_views(games@)));
        assert forall|k: int| 0 <= k < reg@.len() implies {
            &&& (#[trigger] reg@[k]).name@ == es[k].0 && reg@[k].mascot@ == es[k].1
            &&& reg@[k].stats() == season_delta(records@, reg@[k].mascot@)
            &&& reg@[k].overall_score == reg@[k].score_spec()
        } by {
            assert(scored[k].name == played[k].name && scored[k].mascot == played[k].mascot);
            assert(reg@[k].name == scored[k].name && reg@[k].mascot == scored[k].mascot);
            assert(reg@[k].stats() == scored[k].stats() && scored[k].stats() == played[k].stats());
        }
        assert(exists|gs: Seq<GameRecord>| {
            &&& #[trigger] game_views(gs) == game_entries(line_views(games@))
            &&& forall|k: int| 0 <= k < reg@.len() ==> (#[trigger] reg@[k]).stats() == season_delta(gs, reg@[k].mascot@)
        });
    }
    let st = standings(&reg);
    Ok((reg, st))
}

} // verus!
