use seeding::layout::{digits, max_field_width};
use seeding::parse::{game_lines_of, seed_lines_of, parse_game_line, parse_games, parse_roster, parse_roster_line, parse_seed_line, parse_seeds, Field};
use seeding::rank::{rank_delta, rank_order, Delta};
use seeding::record::{GameRecord, RosterEntry, SeedRecord};
use seeding::registry::{Registry, SeedingError};
use seeding::score::overall_score;
use seeding::seeding::{compute_seeding, SeedingFailure};

fn lines(v: &[&str]) -> Vec<String> {
    v.iter().map(|s| s.to_string()).collect()
}

fn entry(name: &str, mascot: &str) -> RosterEntry {
    RosterEntry { name: name.to_string(), mascot: mascot.to_string() }
}

fn game(left: &str, right: &str, ls: u64, rs: u64) -> GameRecord {
    GameRecord { left: left.to_string(), right: right.to_string(), left_score: ls, right_score: rs }
}

fn two_teams() -> Registry {
    Registry::from_roster(&vec![entry("Wildcats", "Tigers"), entry("Bears", "Grizzlies")]).ok().unwrap()
}

#[test]
fn end_to_end_decisive_game() {
    let roster = lines(&["Wildcats Tigers", "Bears Grizzlies"]);
    let games = lines(&["1. Tigers def. Grizzlies 10-7"]);
    let (reg, st) = compute_seeding(&roster, &games, None).ok().unwrap();
    let t = &reg.teams()[0];
    assert_eq!((t.wins, t.losses, t.ties, t.points_for, t.points_against), (1, 0, 0, 10, 7));
    let g = &reg.teams()[1];
    assert_eq!((g.wins, g.losses, g.ties, g.points_for, g.points_against), (0, 1, 0, 7, 10));
    assert_eq!(t.overall_score, 242);
    assert_eq!(g.overall_score, 70);
    assert_eq!(st.len(), 2);
    assert_eq!(reg.teams()[st[0].team].mascot, "Tigers");
    assert_eq!(reg.teams()[st[1].team].mascot, "Grizzlies");
    assert_eq!(st[0].rank, 1);
    assert_eq!(st[1].rank, 2);
}

#[test]
fn end_to_end_tie_keeps_roster_order() {
    let roster = lines(&["Wildcats Tigers", "Bears Grizzlies"]);
    let games = lines(&["1. Tigers tie Grizzlies 5-5"]);
    let (reg, st) = compute_seeding(&roster, &games, None).ok().unwrap();
    for t in reg.teams() {
        assert_eq!((t.wins, t.losses, t.ties, t.points_for, t.points_against), (0, 0, 1, 5, 5));
        assert_eq!(t.overall_score, 100);
    }
    assert_eq!(st[0].team, 0);
    assert_eq!(st[1].team, 1);
}

#[test]
fn equal_scores_keep_roster_order_after_a_better_team() {
    let roster = lines(&["Alpha Ants", "Beta Bees", "Gamma Geese"]);
    let games = lines(&["1. Geese def. Ants 9-1", "2. Geese def. Bees 9-1"]);
    let (reg, st) = compute_seeding(&roster, &games, None).ok().unwrap();
    assert_eq!(reg.teams()[0].overall_score, reg.teams()[1].overall_score);
    let order: Vec<usize> = st.iter().map(|s| s.team).collect();
    assert_eq!(order, vec![2, 0, 1]);
}

#[test]
fn duplicate_mascot_is_refused() {
    let r = Registry::from_roster(&vec![entry("Wildcats", "Tigers"), entry("Bengals", "Tigers")]);
    match r {
        Err(e) => {
            assert_eq!(e.record, 1);
            assert!(matches!(e.error, SeedingError::DuplicateMascot { ref mascot } if mascot == "Tigers"));
        }
        Ok(_) => panic!("duplicate accepted"),
    }
    let mut reg = two_teams();
    let r = reg.insert("Other".to_string(), "Tigers".to_string());
    assert!(matches!(r, Err(SeedingError::DuplicateMascot { .. })));
    assert_eq!(reg.len(), 2);
    assert_eq!(reg.teams()[0].name, "Wildcats");
}

#[test]
fn duplicate_mascot_fails_the_run() {
    let roster = lines(&["Wildcats Tigers", "Bengals Tigers"]);
    let r = compute_seeding(&roster, &lines(&[]), None);
    assert!(matches!(r, Err(SeedingFailure::Roster(_))));
}

#[test]
fn unknown_mascot_in_game_changes_nothing() {
    let mut reg = two_teams();
    let r = reg.record_game(&game("Tigers", "Lions", 3, 1));
    assert!(matches!(r, Err(SeedingError::UnknownMascot { ref mascot }) if mascot == "Lions"));
    for t in reg.teams() {
        assert_eq!((t.wins, t.losses, t.ties, t.points_for, t.points_against), (0, 0, 0, 0, 0));
    }
    let r = reg.record_game(&game("Lions", "Tigers", 3, 1));
    assert!(matches!(r, Err(SeedingError::UnknownMascot { ref mascot }) if mascot == "Lions"));
}

#[test]
fn unknown_mascot_stops_the_season_at_that_record() {
    let mut reg = two_teams();
    let games = vec![game("Tigers", "Grizzlies", 3, 1), game("Tigers", "Lions", 3, 1), game("Tigers", "Grizzlies", 3, 1)];
    let r = reg.record_games(&games);
    let e = r.err().unwrap();
    assert_eq!(e.record, 1);
    assert_eq!(reg.teams()[0].wins, 1);
    assert_eq!(reg.teams()[1].losses, 1);
}

#[test]
fn unknown_mascot_in_prior_seeding() {
    let mut reg = two_teams();
    let seeds = vec![SeedRecord { rank: 1, name: "Detroit".to_string(), mascot: "Lions".to_string() }];
    let e = reg.apply_seeding(&seeds).err().unwrap();
    assert_eq!(e.record, 0);
    assert!(matches!(e.error, SeedingError::UnknownMascot { ref mascot } if mascot == "Lions"));
    let roster = lines(&["Wildcats Tigers"]);
    let r = compute_seeding(&roster, &lines(&[]), Some(&lines(&["1. Detroit Lions"])));
    assert!(matches!(r, Err(SeedingFailure::Seed(_))));
}

#[test]
fn unknown_mascot_fails_the_run() {
    let roster = lines(&["Wildcats Tigers"]);
    let r = compute_seeding(&roster, &lines(&["1. Tigers def. Lions 3-1"]), None);
    assert!(matches!(r, Err(SeedingFailure::Game(_))));
}

#[test]
fn points_are_conserved_per_game() {
    let mut reg = two_teams();
    for g in [game("Tigers", "Grizzlies", 10, 7), game("Grizzlies", "Tigers", 4, 4), game("Grizzlies", "Tigers", 21, 3)] {
        let before_for: u64 = reg.teams().iter().map(|t| t.points_for).sum();
        let before_against: u64 = reg.teams().iter().map(|t| t.points_against).sum();
        let added = g.left_score + g.right_score;
        assert!(reg.record_game(&g).is_ok());
        let after_for: u64 = reg.teams().iter().map(|t| t.points_for).sum();
        let after_against: u64 = reg.teams().iter().map(|t| t.points_against).sum();
        assert_eq!(after_for, before_for + added);
        assert_eq!(after_against, before_against + added);
    }
}

#[test]
fn record_totals_match_game_count() {
    let roster = lines(&["Alpha Ants", "Beta Bees", "Gamma Geese"]);
    let games = lines(&["1. Ants def. Bees 2-1", "2. Bees tie Geese 3-3", "3. Geese def. Ants 1-0", "4. Ants tie Bees 0-0"]);
    let (reg, _) = compute_seeding(&roster, &games, None).ok().unwrap();
    let played: Vec<u64> = reg.teams().iter().map(|t| t.wins + t.losses + t.ties).collect();
    assert_eq!(played, vec![3, 3, 2]);
}

#[test]
fn lower_left_score_is_a_loss_for_the_left_team() {
    let mut reg = two_teams();
    assert!(reg.record_game(&game("Tigers", "Grizzlies", 3, 8)).is_ok());
    assert_eq!((reg.teams()[0].wins, reg.teams()[0].losses), (0, 1));
    assert_eq!((reg.teams()[1].wins, reg.teams()[1].losses), (1, 0));
}

#[test]
fn stat_overflow_is_refused_without_change() {
    let mut reg = two_teams();
    assert!(reg.record_game(&game("Tigers", "Grizzlies", u64::MAX, 0)).is_ok());
    let r = reg.record_game(&game("Tigers", "Grizzlies", 1, 0));
    assert!(matches!(r, Err(SeedingError::StatOverflow { .. })));
    assert_eq!(reg.teams()[0].points_for, u64::MAX);
    assert_eq!(reg.teams()[0].wins, 1);
}

#[test]
fn unseeded_team_has_no_change() {
    let roster = lines(&["Wildcats Tigers", "Bears Grizzlies", "Alpha Ants"]);
    let games = lines(&["1. Tigers def. Grizzlies 10-7", "2. Ants def. Tigers 30-7"]);
    let prior = lines(&["1. Bears Grizzlies", "2. Wildcats Tigers"]);
    let (reg, st) = compute_seeding(&roster, &games, Some(&prior)).ok().unwrap();
    assert_eq!(reg.teams()[2].previous_rank, 0);
    let ants = st.iter().find(|s| s.team == 2).unwrap();
    assert_eq!(ants.rank, 1);
    assert_eq!(ants.delta, Delta::NoChange);
    let grizzlies = st.iter().find(|s| s.team == 1).unwrap();
    assert_eq!(grizzlies.rank, 3);
    assert_eq!(grizzlies.delta, Delta::Fell(2));
    let tigers = st.iter().find(|s| s.team == 0).unwrap();
    assert_eq!(tigers.rank, 2);
    assert_eq!(tigers.delta, Delta::NoChange);
}

#[test]
fn rank_delta_directions() {
    assert_eq!(rank_delta(0, 7), Delta::NoChange);
    assert_eq!(rank_delta(4, 4), Delta::NoChange);
    assert_eq!(rank_delta(5, 2), Delta::Rose(3));
    assert_eq!(rank_delta(2, 5), Delta::Fell(3));
}

#[test]
fn score_formula_values() {
    assert_eq!(overall_score(1, 0, 0, 10, 7), 242);
    assert_eq!(overall_score(0, 1, 0, 7, 10), 70);
    assert_eq!(overall_score(2, 1, 1, 30, 20), 200);
    assert_eq!(overall_score(1, 2, 0, 1, 3), 66);
    assert_eq!(overall_score(1, 1, 1, 2, 3), 100);
}

#[test]
fn score_with_zero_denominators() {
    assert_eq!(overall_score(0, 0, 0, 0, 0), 0);
    assert_eq!(overall_score(1, 0, 0, 5, 0), 100);
    assert_eq!(overall_score(0, 0, 0, 5, 2), 250);
    assert_eq!(overall_score(u64::MAX, 0, 0, u64::MAX, 1), 100 + 100 * (u64::MAX as u128));
}

#[test]
fn rank_order_sorts_descending_and_stably() {
    let mut reg = Registry::from_roster(&vec![entry("A", "Aa"), entry("B", "Bb"), entry("C", "Cc"), entry("D", "Dd")]).ok().unwrap();
    assert!(reg.record_game(&game("Cc", "Aa", 5, 1)).is_ok());
    assert!(reg.record_game(&game("Bb", "Dd", 5, 5)).is_ok());
    reg.compute_scores();
    assert_eq!(rank_order(reg.teams()), vec![2, 1, 3, 0]);
}

#[test]
fn roster_lines() {
    let e = parse_roster_line("Wildcats Tigers").unwrap();
    assert_eq!((e.name.as_str(), e.mascot.as_str()), ("Wildcats", "Tigers"));
    let e = parse_roster_line("New York Giants").unwrap();
    assert_eq!((e.name.as_str(), e.mascot.as_str()), ("New York", "Giants"));
    assert!(parse_roster_line("").is_none());
    assert!(parse_roster_line("Tigers").is_none());
    assert!(parse_roster_line("# roster").is_none());
    assert!(parse_roster_line("Team 9 Tigers").is_none());
    let all = parse_roster(&lines(&["Teams:", "Wildcats Tigers", "", "Bears Grizzlies"]));
    assert_eq!(all.len(), 2);
    assert_eq!(all[1].mascot, "Grizzlies");
}

#[test]
fn game_lines() {
    let g = parse_game_line("12. Tigers def. Grizzlies 10-7").unwrap().unwrap();
    assert_eq!((g.left.as_str(), g.right.as_str(), g.left_score, g.right_score), ("Tigers", "Grizzlies", 10, 7));
    let g = parse_game_line("3. Bees tied Ants 0-0").unwrap().unwrap();
    assert_eq!((g.left.as_str(), g.right.as_str(), g.left_score, g.right_score), ("Bees", "Ants", 0, 0));
    assert!(parse_game_line("3. Bees tie Ants 2-2").unwrap().is_some());
    assert!(parse_game_line("Week one").unwrap().is_none());
    assert!(parse_game_line("1. Tigers beat Grizzlies 10-7").unwrap().is_none());
    assert!(parse_game_line("1 Tigers def. Grizzlies 10-7").unwrap().is_none());
    assert!(parse_game_line("1. Tigers def. Grizzlies 10:7").unwrap().is_none());
}

#[test]
fn game_line_refused_fields() {
    assert_eq!(parse_game_line("1. Tigers tie Grizzlies 5-4").err(), Some(Field::Verb));
    assert_eq!(parse_game_line("1. Tigers def. Grizzlies 5-5").err(), Some(Field::Verb));
    assert_eq!(parse_game_line("1. Tigers def. Grizzlies 99999999999999999999-1").err(), Some(Field::LeftScore));
    assert_eq!(parse_game_line("1. Tigers def. Grizzlies 1-99999999999999999999").err(), Some(Field::RightScore));
    assert_eq!(parse_game_line("1. Tigers def. Grizzlies 10.5-7").err(), Some(Field::LeftScore));
    assert_eq!(parse_game_line("1. Tigers def. Grizzlies 10-7.5").err(), Some(Field::RightScore));
    assert!(parse_game_line("1. Tigers def. Grizzlies 10.5.1-7").unwrap().is_none());
    let e = parse_games(&lines(&["1. Tigers def. Grizzlies 10-7", "note", "2. Tigers tied Grizzlies 1-2"])).err().unwrap();
    assert_eq!(e.line, 3);
    assert_eq!(e.field, Field::Verb);
    let roster = lines(&["Wildcats Tigers", "Bears Grizzlies"]);
    let r = compute_seeding(&roster, &lines(&["1. Tigers def. Grizzlies 5-5"]), None);
    assert!(matches!(r, Err(SeedingFailure::GameLine(e)) if e.line == 1 && e.field == Field::Verb));
}

#[test]
fn seed_lines() {
    let s = parse_seed_line("4. Bears Grizzlies").unwrap().unwrap();
    assert_eq!((s.rank, s.name.as_str(), s.mascot.as_str()), (4, "Bears", "Grizzlies"));
    let s = parse_seed_line("1. New York Giants").unwrap().unwrap();
    assert_eq!((s.rank, s.name.as_str(), s.mascot.as_str()), (1, "New York", "Giants"));
    assert!(parse_seed_line("Previous seeding").unwrap().is_none());
    assert!(parse_seed_line("1. Giants").unwrap().is_none());
    assert_eq!(parse_seed_line("99999999999999999999. Bears Grizzlies").err(), Some(Field::Rank));
    assert_eq!(parse_seed_line("0. Bears Grizzlies").err(), Some(Field::Rank));
    assert_eq!(parse_seed_line("00. Bears Grizzlies").err(), Some(Field::Rank));
    let e = parse_seeds(&lines(&["1. Bears Grizzlies", "99999999999999999999. Wildcats Tigers"])).err().unwrap();
    assert_eq!((e.line, e.field), (2, Field::Rank));
    let roster = lines(&["Wildcats Tigers"]);
    let r = compute_seeding(&roster, &lines(&[]), Some(&lines(&["99999999999999999999. Wildcats Tigers"])));
    assert!(matches!(r, Err(SeedingFailure::SeedLine(_))));
}

#[test]
fn later_seed_record_wins() {
    let mut reg = two_teams();
    let seeds = vec![
        SeedRecord { rank: 1, name: "Bears".to_string(), mascot: "Grizzlies".to_string() },
        SeedRecord { rank: 2, name: "Bears".to_string(), mascot: "Grizzlies".to_string() },
    ];
    assert!(reg.apply_seeding(&seeds).is_ok());
    assert_eq!(reg.teams()[1].previous_rank, 2);
    assert_eq!(reg.teams()[0].previous_rank, 0);
}

#[test]
fn column_widths() {
    assert_eq!(digits(0, 10), 0);
    assert_eq!(digits(7, 10), 1);
    assert_eq!(digits(123, 10), 3);
    assert_eq!(digits(8, 2), 4);
    assert_eq!(max_field_width(&lines(&["ab", "abcde", "abc"])), 5);
    assert_eq!(max_field_width(&lines(&["Wildcats", "Bears"])), 8);
    assert_eq!(max_field_width(&lines(&["four"])), 4);
    assert_eq!(max_field_width(&lines(&[])), 0);
}

#[test]
fn team_playing_itself_gets_both_sides() {
    let mut reg = two_teams();
    assert!(reg.record_game(&game("Tigers", "Tigers", 3, 1)).is_ok());
    let t = &reg.teams()[0];
    assert_eq!((t.wins, t.losses, t.ties, t.points_for, t.points_against), (1, 1, 0, 4, 4));
    assert_eq!(t.games_played(), 2);
}

#[test]
fn find_is_exact_and_case_sensitive() {
    let reg = two_teams();
    assert_eq!(reg.find("Grizzlies"), Some(1));
    assert_eq!(reg.find("grizzlies"), None);
    assert_eq!(reg.find("Grizzlie"), None);
    assert_eq!(reg.find(""), None);
}

#[test]
fn record_line_numbers() {
    let games = lines(&["Week 1", "1. Tigers def. Grizzlies 10-7", "", "2. Tigers tie Grizzlies 3-3"]);
    assert_eq!(game_lines_of(&games), vec![2, 4]);
    let prior = lines(&["Last week", "1. Bears Grizzlies", "2. Wildcats Tigers"]);
    assert_eq!(seed_lines_of(&prior), vec![2, 3]);
    let roster = lines(&["Wildcats Tigers", "Bears Grizzlies"]);
    let games = lines(&["1. Tigers def. Grizzlies 10-7", "note", "2. Tigers def. Lions 3-1"]);
    match compute_seeding(&roster, &games, None) {
        Err(SeedingFailure::Game(e)) => assert_eq!(game_lines_of(&games)[e.record], 3),
        _ => panic!("unknown mascot accepted"),
    }
}
