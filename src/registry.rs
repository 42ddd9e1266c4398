use vstd::prelude::*;
use crate::record::{GameRecord, RosterEntry, SeedRecord, game_delta, season_delta, side_delta};
use crate::record::{lemma_season_delta_nonneg, lemma_season_delta_prefix};
use crate::team::{Stats, Team, add_stats, fits, zero_stats};
use crate::text::same_text;

verus! {

/// What can go wrong while building or updating a registry.
pub enum SeedingError {
    /// A roster names the same mascot twice.
    DuplicateMascot { mascot: String },
    /// A record names a mascot that is not in the roster.
    UnknownMascot { mascot: String },
    /// A team's games played or point totals would leave the range of `u64`.
    StatOverflow { mascot: String },
}

/// An error tied to the position of the record that caused it.
pub struct RecordError {
    pub record: usize,
    pub error: SeedingError,
}

/// Mascot identifiers are pairwise distinct.
pub open spec fn mascots_distinct(teams: Seq<Team>) -> bool {
    forall|i: int, j: int| 0 <= i < j < teams.len() ==> teams[i].mascot@ != teams[j].mascot@
}

pub open spec fn knows(teams: Seq<Team>, m: Seq<char>) -> bool {
    exists|i: int| 0 <= i < teams.len() && teams[i].mascot@ == m
}

/// A freshly inserted team: the given name and mascot, counters at zero.
pub open spec fn is_fresh(t: Team, name: Seq<char>, mascot: Seq<char>) -> bool {
    &&& t.name@ == name
    &&& t.mascot@ == mascot
    &&& t.stats() == zero_stats()
    &&& t.previous_rank == 0
    &&& t.overall_score == 0
}

/// `after` is `before` with `d` added to its counters and nothing else changed.
pub open spec fn advanced(before: Team, after: Team, d: Stats) -> bool {
    &&& after.name == before.name
    &&& after.mascot == before.mascot
    &&& after.previous_rank == before.previous_rank
    &&& after.overall_score == before.overall_score
    &&& after.stats() == add_stats(before.stats(), d)
}

/// Every team stays within range after the game is added.
pub open spec fn game_fits(teams: Seq<Team>, g: GameRecord) -> bool {
    forall|k: int| 0 <= k < teams.len() ==> fits(#[trigger] add_stats(teams[k].stats(), game_delta(g, teams[k].mascot@)))
}

/// `after` is `before` with one game folded into every team.
pub open spec fn game_applied(before: Seq<Team>, after: Seq<Team>, g: GameRecord) -> bool {
    &&& after.len() == before.len()
    &&& forall|k: int| 0 <= k < before.len() ==> advanced(before[k], #[trigger] after[k], game_delta(g, before[k].mascot@))
}

/// `after` is `before` with a sequence of games folded into every team.
pub open spec fn season_applied(before: Seq<Team>, after: Seq<Team>, games: Seq<GameRecord>) -> bool {
    &&& after.len() == before.len()
    &&& forall|k: int| 0 <= k < before.len() ==> advanced(before[k], #[trigger] after[k], season_delta(games, before[k].mascot@))
}

/// Every team stays within range after the whole season is added.
pub open spec fn season_fits(teams: Seq<Team>, games: Seq<GameRecord>) -> bool {
    forall|k: int| 0 <= k < teams.len() ==> fits(#[trigger] add_stats(teams[k].stats(), season_delta(games, teams[k].mascot@)))
}

/// Every record of `games` names two mascots of `teams`.
pub open spec fn all_known(teams: Seq<Team>, games: Seq<GameRecord>) -> bool {
    forall|j: int| 0 <= j < games.len() ==> knows(teams, #[trigger] games[j].left@) && knows(teams, games[j].right@)
}

/// The rank the last record of `seeds` naming `m` gives, or `default` if none does.
pub open spec fn seed_rank(seeds: Seq<SeedRecord>, m: Seq<char>, default: int) -> int
    decreases seeds.len(),
{
    if seeds.len() == 0 {
        default
    } else if seeds.last().mascot@ == m {
        seeds.last().rank as int
    } else {
        seed_rank(seeds.drop_last(), m, default)
    }
}

/// A sequence with the same mascots and counters as a well-formed one is well formed.
proof fn lemma_same_keys(after: Seq<Team>, start: Seq<Team>)
    requires
        after.len() == start.len(),
        mascots_distinct(start),
        forall|k: int| 0 <= k < start.len() ==> (#[trigger] start[k]).well_formed(),
        forall|k: int| 0 <= k < start.len() ==> (#[trigger] after[k]).mascot == start[k].mascot && after[k].stats() == start[k].stats(),
    ensures
        mascots_distinct(after),
        forall|k: int| 0 <= k < after.len() ==> (#[trigger] after[k]).well_formed(),
{
    assert forall|i: int, j: int| 0 <= i < j < after.len() implies after[i].mascot@ != after[j].mascot@ by {
        assert(after[i].mascot == start[i].mascot);
        assert(after[j].mascot == start[j].mascot);
    }
    assert forall|k: int| 0 <= k < after.len() implies (#[trigger] after[k]).well_formed() by {
        assert(start[k].well_formed());
    }
}

/// An insertion-ordered collection of teams keyed by a unique mascot.
pub struct Registry {
    teams: Vec<Team>,
}

impl View for Registry {
    type V = Seq<Team>;

    closed spec fn view(&self) -> Seq<Team> {
        self.teams@
    }
}

impl Registry {
    pub open spec fn well_formed(&self) -> bool {
        &&& mascots_distinct(self@)
        &&& forall|k: int| 0 <= k < self@.len() ==> (#[trigger] self@[k]).well_formed()
    }

    pub fn new() -> (r: Registry)
        ensures
            r@.len() == 0,
            r.well_formed(),
    {
        Registry { teams: Vec::new() }
    }

    pub fn len(&self) -> (r: usize)
        ensures
            r == self@.len(),
    {
        self.teams.len()
    }

    /// The teams, in insertion order.
    pub fn teams(&self) -> (r: &Vec<Team>)
        ensures
            r@ == self@,
    {
        &self.teams
    }

    /// The position of the team with the given mascot.
    pub fn find(&self, mascot: &str) -> (r: Option<usize>)
        ensures
            match r {
                Some(i) => i < self@.len() && self@[i as int].mascot@ == mascot@,
                None => !knows(self@, mascot@),
            },
    {
        let mut i: usize = 0;
        while i < self.teams.len()
            invariant
                i <= self@.len(),
                self@ == self.teams@,
                forall|j: int| 0 <= j < i ==> self@[j].mascot@ != mascot@,
            decreases self@.len() - i,
        {
            if same_text(self.teams[i].mascot.as_str(), mascot) {
                return Some(i);
            }
            i = i + 1;
        }
        None
    }

    /// Appends a team with all counters at zero, unless its mascot is taken.
    pub fn insert(&mut self, name: String, mascot: String) -> (r: Result<(), SeedingError>)
        requires
            old(self).well_formed(),
        ensures
            final(self).well_formed(),
            knows(old(self)@, mascot@) ==> final(self)@ == old(self)@ && match r {
                Err(SeedingError::DuplicateMascot { mascot: m }) => m@ == mascot@,
                _ => false,
            },
            !knows(old(self)@, mascot@) ==> r is Ok && final(self)@.len() == old(self)@.len() + 1
                && final(self)@.take(old(self)@.len() as int) == old(self)@
                && is_fresh(final(self)@.last(), name@, mascot@),
    {
        match self.find(mascot.as_str()) {
            Some(_) => Err(SeedingError::DuplicateMascot { mascot }),
            None => {
                let ghost before = self@;
                let t = Team::new(name, mascot);
                self.teams.push(t);
                assert(self@.take(before.len() as int) =~= before);
                Ok(())
            },
        }
    }

    /// Builds a registry from roster entries, in their order.
    pub fn from_roster(entries: &Vec<RosterEntry>) -> (r: Result<Registry, RecordError>)
        ensures
            match r {
                Ok(reg) => {
                    &&& reg.well_formed()
                    &&& reg@.len() == entries@.len()
                    &&& forall|k: int| 0 <= k < entries@.len() ==> is_fresh(#[trigger] reg@[k], entries@[k].name@, entries@[k].mascot@)
                },
                Err(e) => {
                    &&& e.record < entries@.len()
                    &&& exists|i: int| 0 <= i < e.record && (#[trigger] entries@[i]).mascot@ == entries@[e.record as int].mascot@
                    &&& forall|i: int, j: int| 0 <= i < j < e.record ==> entries@[i].mascot@ != entries@[j].mascot@
                    &&& match e.error {
                        SeedingError::DuplicateMascot { mascot } => mascot@ == entries@[e.record as int].mascot@,
                        _ => false,
                    }
                },
            },
            r is Ok <==> forall|i: int, j: int| 0 <= i < j < entries@.len() ==> entries@[i].mascot@ != entries@[j].mascot@,
    {
        let mut reg = Registry::new();
        let mut i: usize = 0;
        while i < entries.len()
            invariant
                i <= entries@.len(),
                reg.well_formed(),
                reg@.len() == i,
                forall|k: int| 0 <= k < i ==> is_fresh(#[trigger] reg@[k], entries@[k].name@, entries@[k].mascot@),
                forall|a: int, b: int| 0 <= a < b < i ==> entries@[a].mascot@ != entries@[b].mascot@,
            decreases entries@.len() - i,
        {
            let name = entries[i].name.as_str().to_owned();
            let mascot = entries[i].mascot.as_str().to_owned();
            let ghost before = reg@;
            match reg.insert(name, mascot) {
                Ok(()) => {
                    assert forall|k: int| 0 <= k < i + 1 implies is_fresh(#[trigger] reg@[k], entries@[k].name@, entries@[k].mascot@) by {
                        if k < i {
                            assert(reg@[k] == reg@.take(i as int)[k]);
                        }
                    }
                    assert forall|a: int, b: int| 0 <= a < b < i + 1 implies entries@[a].mascot@ != entries@[b].mascot@ by {
                        if b == i {
                            assert(before[a].mascot@ == entries@[a].mascot@);
                        }
                    }
                },
                Err(error) => {
                    let ghost w = choose|w: int| 0 <= w < before.len() && before[w].mascot@ == entries@[i as int].mascot@;
                    assert(entries@[w].mascot@ == entries@[i as int].mascot@);
                    return Err(RecordError { record: i, error });
                },
            }
            i = i + 1;
        }
        Ok(reg)
    }

    /// The counters of team `t` after a game in which it stood on the left side,
    /// the right side, or both; `None` where they would leave their range.
    fn next_stats(t: &Team, on_left: bool, on_right: bool, ls: u64, rs: u64) -> (r: Option<(u64, u64, u64, u64, u64)>)
        requires
            t.well_formed(),
        ensures
            ({
                let s = add_stats(t.stats(), side_delta(on_left, on_right, ls as int, rs as int));
                match r {
                    Some((w, l, ti, pf, pa)) => fits(s) && s == (Stats {
                        wins: w as int,
                        losses: l as int,
                        ties: ti as int,
                        points_for: pf as int,
                        points_against: pa as int,
                    }),
                    None => !fits(s),
                }
            }),
    {
        let mut w: u128 = t.wins as u128;
        let mut l: u128 = t.losses as u128;
        let mut ti: u128 = t.ties as u128;
        let mut pf: u128 = t.points_for as u128;
        let mut pa: u128 = t.points_against as u128;
        if on_left {
            if ls > rs {
                w = w + 1;
            } else if ls < rs {
                l = l + 1;
            } else {
                ti = ti + 1;
            }
            pf = pf + ls as u128;
            pa = pa + rs as u128;
        }
        if on_right {
            if rs > ls {
                w = w + 1;
            } else if rs < ls {
                l = l + 1;
            } else {
                ti = ti + 1;
            }
            pf = pf + rs as u128;
            pa = pa + ls as u128;
        }
        if w + l + ti > u64::MAX as u128 || pf > u64::MAX as u128 || pa > u64::MAX as u128 {
            None
        } else {
            Some((w as u64, l as u64, ti as u64, pf as u64, pa as u64))
        }
    }

    /// Folds one game into the two teams it names. Nothing changes when it fails.
    pub fn record_game(&mut self, game: &GameRecord) -> (r: Result<(), SeedingError>)
        requires
            old(self).well_formed(),
        ensures
            final(self).well_formed(),
            match r {
                Ok(()) => {
                    &&& knows(old(self)@, game.left@)
                    &&& knows(old(self)@, game.right@)
                    &&& game_fits(old(self)@, *game)
                    &&& game_applied(old(self)@, final(self)@, *game)
                },
                Err(SeedingError::UnknownMascot { mascot }) => {
                    &&& final(self)@ == old(self)@
                    &&& (!knows(old(self)@, game.left@) && mascot@ == game.left@)
                        || (knows(old(self)@, game.left@) && !knows(old(self)@, game.right@) && mascot@ == game.right@)
                },
                Err(SeedingError::StatOverflow { mascot }) => {
                    &&& final(self)@ == old(self)@
                    &&& knows(old(self)@, game.left@)
                    &&& knows(old(self)@, game.right@)
                    &&& !game_fits(old(self)@, *game)
                },
                Err(SeedingError::DuplicateMascot { .. }) => false,
            },
    {
        let li = match self.find(game.left.as_str()) {
            Some(i) => i,
            None => {
                return Err(SeedingError::UnknownMascot { mascot: game.left.as_str().to_owned() });
            },
        };
        let ri = match self.find(game.right.as_str()) {
            Some(i) => i,
            None => {
                return Err(SeedingError::UnknownMascot { mascot: game.right.as_str().to_owned() });
            },
        };
        let ghost before = self@;
        let ls = game.left_score;
        let rs = game.right_score;
        let left_next = Self::next_stats(&self.teams[li], true, li == ri, ls, rs);
        let right_next = Self::next_stats(&self.teams[ri], li == ri, true, ls, rs);
        proof {
            assert forall|k: int| 0 <= k < before.len() && k != li && k != ri implies
                game_delta(*game, before[k].mascot@) == zero_stats() by {
                assert(before[k].mascot@ != before[li as int].mascot@);
                assert(before[k].mascot@ != before[ri as int].mascot@);
            }
            assert(game_delta(*game, before[li as int].mascot@) == side_delta(true, li == ri, ls as int, rs as int)) by {
                if li != ri {
                    assert(before[li as int].mascot@ != before[ri as int].mascot@);
                }
            }
            assert(game_delta(*game, before[ri as int].mascot@) == side_delta(li == ri, true, ls as int, rs as int)) by {
                if li != ri {
                    assert(before[li as int].mascot@ != before[ri as int].mascot@);
                }
            }
        }
        match (left_next, right_next) {
            (Some((w1, l1, t1, f1, a1)), Some((w2, l2, t2, f2, a2))) => {
                self.teams[li].wins = w1;
                self.teams[li].losses = l1;
                self.teams[li].ties = t1;
                self.teams[li].points_for = f1;
                self.teams[li].points_against = a1;
                self.teams[ri].wins = w2;
                self.teams[ri].losses = l2;
                self.teams[ri].ties = t2;
                self.teams[ri].points_for = f2;
                self.teams[ri].points_against = a2;
                proof {
                    assert forall|k: int| 0 <= k < before.len() implies
                        advanced(before[k], #[trigger] self@[k], game_delta(*game, before[k].mascot@)) by {
                        if k != li && k != ri {
                            assert(self@[k] == before[k]);
                        }
                    }
                    assert forall|k: int| 0 <= k < before.len() implies
                        fits(#[trigger] add_stats(before[k].stats(), game_delta(*game, before[k].mascot@))) by {
                        if k != li && k != ri {
                            assert(before[k].well_formed());
                        }
                    }
                    assert forall|i: int, j: int| 0 <= i < j < self@.len() implies self@[i].mascot@ != self@[j].mascot@ by {
                        assert(self@[i].mascot == before[i].mascot);
                        assert(self@[j].mascot == before[j].mascot);
                    }
                    assert forall|k: int| 0 <= k < self@.len() implies (#[trigger] self@[k]).well_formed() by {
                        assert(fits(add_stats(before[k].stats(), game_delta(*game, before[k].mascot@))));
                    }
                }
                Ok(())
            },
            _ => {
                let m = if left_next.is_none() { game.left.as_str().to_owned() } else { game.right.as_str().to_owned() };
                proof {
                    if left_next.is_none() {
                        assert(!fits(add_stats(before[li as int].stats(), game_delta(*game, before[li as int].mascot@))));
                    } else {
                        assert(!fits(add_stats(before[ri as int].stats(), game_delta(*game, before[ri as int].mascot@))));
                    }
                }
                Err(SeedingError::StatOverflow { mascot: m })
            },
        }
    }

    /// Folds every game into the registry, in order, stopping at the first
    /// record that fails. The records before it stay folded in.
    pub fn record_games(&mut self, games: &Vec<GameRecord>) -> (r: Result<(), RecordError>)
        requires
            old(self).well_formed(),
        ensures
            final(self).well_formed(),
            ({
                let done: int = match r {
                    Ok(()) => games@.len() as int,
                    Err(e) => e.record as int,
                };
                &&& 0 <= done <= games@.len()
                &&& season_applied(old(self)@, final(self)@, games@.take(done))
                &&& all_known(old(self)@, games@.take(done))
            }),
            match r {
                Ok(()) => true,
                Err(e) => {
                    let g = games@[e.record as int];
                    let seen = games@.take(e.record as int);
                    &&& e.record < games@.len()
                    &&& match e.error {
                        SeedingError::UnknownMascot { mascot } =>
                            (!knows(old(self)@, g.left@) && mascot@ == g.left@)
                            || (knows(old(self)@, g.left@) && !knows(old(self)@, g.right@) && mascot@ == g.right@),
                        SeedingError::StatOverflow { .. } =>
                            knows(old(self)@, g.left@) && knows(old(self)@, g.right@)
                            && season_fits(old(self)@, seen) && !season_fits(old(self)@, games@.take(e.record + 1)),
                        SeedingError::DuplicateMascot { .. } => false,
                    }
                },
            },
            r is Ok <==> all_known(old(self)@, games@) && season_fits(old(self)@, games@),
    {
        let ghost start = self@;
        let mut i: usize = 0;
        proof {
            assert forall|k: int| 0 <= k < start.len() implies
                advanced(start[k], #[trigger] self@[k], season_delta(games@.take(0), start[k].mascot@)) by {
                assert(start[k].stats() == add_stats(start[k].stats(), zero_stats()));
            }
        }
        while i < games.len()
            invariant
                start == old(self)@,
                i <= games@.len(),
                self.well_formed(),
                season_applied(start, self@, games@.take(i as int)),
                all_known(start, games@.take(i as int)),
                season_fits(start, games@.take(i as int)),
                forall|k: int| 0 <= k < start.len() ==> (#[trigger] self@[k]).mascot == start[k].mascot,
            decreases games@.len() - i,
        {
            let ghost before = self@;
            let ghost g = games@[i as int];
            proof {
                assert forall|m: Seq<char>| knows(before, m) <==> knows(start, m) by {
                    if knows(before, m) {
                        let w = choose|w: int| 0 <= w < before.len() && before[w].mascot@ == m;
                        assert(start[w].mascot == before[w].mascot);
                    }
                    if knows(start, m) {
                        let w = choose|w: int| 0 <= w < start.len() && start[w].mascot@ == m;
                        assert(start[w].mascot == before[w].mascot);
                    }
                }
                assert(games@.take(i + 1).drop_last() =~= games@.take(i as int));
                assert(games@.take(i + 1).last() == g);
                assert forall|k: int| 0 <= k < start.len() implies
                    add_stats(before[k].stats(), game_delta(g, before[k].mascot@))
                        == #[trigger] add_stats(start[k].stats(), season_delta(games@.take(i + 1), start[k].mascot@)) by {
                    assert(before[k].mascot == start[k].mascot);
                }
            }
            match self.record_game(&games[i]) {
                Ok(()) => {
                    proof {
                        assert forall|k: int| 0 <= k < start.len() implies
                            advanced(start[k], #[trigger] self@[k], season_delta(games@.take(i + 1), start[k].mascot@)) by {
                            assert(advanced(before[k], self@[k], game_delta(g, before[k].mascot@)));
                            assert(before[k].mascot == start[k].mascot);
                        }
                        assert forall|j: int| 0 <= j < i + 1 implies
                            knows(start, #[trigger] games@.take(i + 1)[j].left@) && knows(start, games@.take(i + 1)[j].right@) by {
                            if j < i {
                                assert(games@.take(i + 1)[j] == games@.take(i as int)[j]);
                            }
                        }
                        assert forall|k: int| 0 <= k < start.len() implies
                            fits(#[trigger] add_stats(start[k].stats(), season_delta(games@.take(i + 1), start[k].mascot@))) by {
                            assert(fits(add_stats(before[k].stats(), game_delta(g, before[k].mascot@))));
                        }
                    }
                },
                Err(error) => {
                    proof {
                        assert(games@[i as int] == g);
                        match error {
                            SeedingError::StatOverflow { .. } => {
                                let k = choose|k: int| 0 <= k < before.len()
                                    && !fits(#[trigger] add_stats(before[k].stats(), game_delta(g, before[k].mascot@)));
                                let m = start[k].mascot@;
                                assert(add_stats(before[k].stats(), game_delta(g, before[k].mascot@))
                                    == add_stats(start[k].stats(), season_delta(games@.take(i + 1), m)));
                                lemma_season_delta_prefix(games@, i + 1, m);
                                lemma_season_delta_nonneg(games@.take(i + 1), m);
                                assert(!fits(add_stats(start[k].stats(), season_delta(games@, m))));
                                assert(!season_fits(start, games@.take(i + 1)));
                            },
                            _ => {},
                        }
                        assert(self@ == before);
                    }
                    return Err(RecordError { record: i, error });
                },
            }
            i = i + 1;
        }
        proof {
            assert(games@.take(games@.len() as int) =~= games@);
        }
        Ok(())
    }

    /// Computes every team's overall score from its counters.
    pub fn compute_scores(&mut self)
        requires
            old(self).well_formed(),
        ensures
            final(self).well_formed(),
            final(self)@.len() == old(self)@.len(),
            forall|k: int| 0 <= k < old(self)@.len() ==> {
                let (a, b) = (old(self)@[k], #[trigger] final(self)@[k]);
                &&& b.overall_score == a.score_spec()
                &&& b.name == a.name && b.mascot == a.mascot && b.previous_rank == a.previous_rank
                &&& b.stats() == a.stats()
            },
    {
        let ghost start = self@;
        let mut i: usize = 0;
        while i < self.teams.len()
            invariant
                i <= self@.len(),
                self@.len() == start.len(),
                self@ == self.teams@,
                mascots_distinct(start),
                forall|k: int| 0 <= k < start.len() ==> (#[trigger] start[k]).well_formed(),
                forall|k: int| 0 <= k < start.len() ==> {
                    let (a, b) = (start[k], #[trigger] self@[k]);
                    &&& b.overall_score == (if k < i { a.score_spec() } else { a.overall_score as int })
                    &&& b.name == a.name && b.mascot == a.mascot && b.previous_rank == a.previous_rank
                    &&& b.stats() == a.stats()
                },
            decreases self@.len() - i,
        {
            let t = &self.teams[i];
            let s = crate::score::overall_score(t.wins, t.losses, t.ties, t.points_for, t.points_against);
            self.teams[i].overall_score = s;
            i = i + 1;
        }
        proof {
            assert forall|i: int, j: int| 0 <= i < j < self@.len() implies self@[i].mascot@ != self@[j].mascot@ by {
                assert(self@[i].mascot == start[i].mascot);
                assert(self@[j].mascot == start[j].mascot);
            }
            assert forall|k: int| 0 <= k < self@.len() implies (#[trigger] self@[k]).well_formed() by {
                assert(start[k].well_formed());
            }
        }
    }

    /// Sets each seeded team's previous rank, in record order, stopping at the
    /// first record whose mascot is not in the registry. Teams that no record
    /// names keep their previous rank.
    pub fn apply_seeding(&mut self, seeds: &Vec<SeedRecord>) -> (r: Result<(), RecordError>)
        requires
            old(self).well_formed(),
        ensures
            final(self).well_formed(),
            final(self)@.len() == old(self)@.len(),
            ({
                let done: int = match r {
                    Ok(()) => seeds@.len() as int,
                    Err(e) => e.record as int,
                };
                &&& 0 <= done <= seeds@.len()
                &&& forall|k: int| 0 <= k < old(self)@.len() ==> {
                    let (a, b) = (old(self)@[k], #[trigger] final(self)@[k]);
                    &&& b.previous_rank == seed_rank(seeds@.take(done), a.mascot@, a.previous_rank as int)
                    &&& b.name == a.name && b.mascot == a.mascot && b.overall_score == a.overall_score
                    &&& b.stats() == a.stats()
                }
                &&& forall|j: int| 0 <= j < done ==> knows(old(self)@, #[trigger] seeds@[j].mascot@)
            }),
            match r {
                Ok(()) => true,
                Err(e) => {
                    &&& e.record < seeds@.len()
                    &&& !knows(old(self)@, seeds@[e.record as int].mascot@)
                    &&& match e.error {
                        SeedingError::UnknownMascot { mascot } => mascot@ == seeds@[e.record as int].mascot@,
                        _ => false,
                    }
                },
            },
            r is Ok <==> forall|j: int| 0 <= j < seeds@.len() ==> knows(old(self)@, #[trigger] seeds@[j].mascot@),
    {
        let ghost start = self@;
        let mut i: usize = 0;
        while i < seeds.len()
            invariant
                start == old(self)@,
                i <= seeds@.len(),
                self@.len() == start.len(),
                mascots_distinct(start),
                forall|k: int| 0 <= k < start.len() ==> (#[trigger] start[k]).well_formed(),
                forall|k: int| 0 <= k < start.len() ==> {
                    let (a, b) = (start[k], #[trigger] self@[k]);
                    &&& b.previous_rank == seed_rank(seeds@.take(i as int), a.mascot@, a.previous_rank as int)
                    &&& b.name == a.name && b.mascot == a.mascot && b.overall_score == a.overall_score
                    &&& b.stats() == a.stats()
                },
                forall|j: int| 0 <= j < i ==> knows(start, #[trigger] seeds@[j].mascot@),
            decreases seeds@.len() - i,
        {
            let ghost before = self@;
            proof {
                assert(seeds@.take(i + 1).drop_last() =~= seeds@.take(i as int));
            }
            match self.find(seeds[i].mascot.as_str()) {
                Some(k) => {
                    self.teams[k].previous_rank = seeds[i].rank;
                    proof {
                        assert forall|q: int| 0 <= q < start.len() implies
                            (#[trigger] self@[q]).previous_rank == seed_rank(seeds@.take(i + 1), start[q].mascot@, start[q].previous_rank as int) by {
                            assert(before[q].mascot == start[q].mascot);
                            if q != k {
                                assert(start[q].mascot@ != start[k as int].mascot@);
                            }
                        }
                        assert(knows(start, seeds@[i as int].mascot@)) by {
                            assert(before[k as int].mascot == start[k as int].mascot);
                        }
                    }
                },
                None => {
                    proof {
                        assert(!knows(start, seeds@[i as int].mascot@)) by {
                            if knows(start, seeds@[i as int].mascot@) {
                                let w = choose|w: int| 0 <= w < start.len() && start[w].mascot@ == seeds@[i as int].mascot@;
                                assert(before[w].mascot == start[w].mascot);
                            }
                        }
                    }
                    proof { lemma_same_keys(self@, start); }
                    return Err(RecordError {
                        record: i,
                        error: SeedingError::UnknownMascot { mascot: seeds[i].mascot.as_str().to_owned() },
                    });
                },
            }
            i = i + 1;
        }
        proof {
            assert(seeds@.take(seeds@.len() as int) =~= seeds@);
        }
        proof { lemma_same_keys(self@, start); }
        Ok(())
    }
}

} // verus!
