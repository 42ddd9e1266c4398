use vstd::prelude::*;
use vstd::string::StrSliceExecFns;
use crate::record::{GameRecord, RosterEntry, SeedRecord};

verus! {

/// Splits `s` at every `sep`; adjacent separators give empty fields, and the
/// result always holds at least one field.
pub open spec fn split_spec(s: Seq<char>, sep: char) -> Seq<Seq<char>>
    decreases s.len(),
{
    if s.len() == 0 {
        seq![Seq::empty()]
    } else {
        let r = split_spec(s.drop_last(), sep);
        if s.last() == sep {
            r.push(Seq::empty())
        } else {
            r.update(r.len() - 1, r.last().push(s.last()))
        }
    }
}

pub open spec fn is_letter(c: char) -> bool {
    ('a' <= c && c <= 'z') || ('A' <= c && c <= 'Z')
}

pub open spec fn is_digit(c: char) -> bool {
    '0' <= c && c <= '9'
}

/// A non-empty run of ASCII letters.
pub open spec fn is_word(w: Seq<char>) -> bool {
    w.len() > 0 && forall|i: int| 0 <= i < w.len() ==> is_letter(#[trigger] w[i])
}

/// A non-empty run of decimal digits.
pub open spec fn is_number(w: Seq<char>) -> bool {
    w.len() > 0 && forall|i: int| 0 <= i < w.len() ==> is_digit(#[trigger] w[i])
}

/// The value of a run of decimal digits.
pub open spec fn digits_value(w: Seq<char>) -> int
    decreases w.len(),
{
    if w.len() == 0 {
        0
    } else {
        digits_value(w.drop_last()) * 10 + (w.last() as int - '0' as int)
    }
}

/// The characters of a string.
pub fn chars_of(s: &str) -> (r: Vec<char>)
    ensures
        r@ == s@,
{
    let n = s.unicode_len();
    let mut r: Vec<char> = Vec::new();
    let mut i: usize = 0;
    while i < n
        invariant
            n == s@.len(),
            i <= n,
            r@ == s@.take(i as int),
        decreases n - i,
    {
        r.push(s.get_char(i));
        i = i + 1;
        assert(r@ =~= s@.take(i as int));
    }
    assert(s@.take(n as int) =~= s@);
    r
}

/// Splits `s` at every `sep`, with the position at which each field starts.
pub fn split_fields(s: &Vec<char>, sep: char) -> (r: (Vec<Vec<char>>, Vec<usize>))
    ensures
        r.0@.map_values(|f: Vec<char>| f@) == split_spec(s@, sep),
        r.1@.len() == r.0@.len(),
        r.1@[0] == 0,
        forall|k: int| 0 <= k < r.0@.len() ==> {
            &&& #[trigger] r.1@[k] + r.0@[k]@.len() <= s@.len()
            &&& s@.subrange(r.1@[k] as int, r.1@[k] + r.0@[k]@.len()) == r.0@[k]@
        },
        forall|k: int| 0 < k < r.0@.len() ==> #[trigger] r.1@[k] == r.1@[k - 1] + r.0@[k - 1]@.len() + 1,
        r.1@[r.0@.len() - 1] + r.0@[r.0@.len() - 1]@.len() == s@.len(),
        forall|k: int, j: int| 0 <= k < j < r.0@.len() ==> #[trigger] r.1@[k] + r.0@[k]@.len() < #[trigger] r.1@[j],
{
    let mut fields: Vec<Vec<char>> = Vec::new();
    let mut starts: Vec<usize> = Vec::new();
    let mut cur: Vec<char> = Vec::new();
    let mut cur_start: usize = 0;
    let mut i: usize = 0;
    while i < s.len()
        invariant
            i <= s@.len(),
            fields@.map_values(|f: Vec<char>| f@).push(cur@) == split_spec(s@.take(i as int), sep),
            starts@.len() == fields@.len(),
            cur_start + cur@.len() == i,
            s@.subrange(cur_start as int, i as int) == cur@,
            forall|k: int| 0 <= k < fields@.len() ==> {
                &&& #[trigger] starts@[k] + fields@[k]@.len() <= s@.len()
                &&& s@.subrange(starts@[k] as int, starts@[k] + fields@[k]@.len()) == fields@[k]@
            },
            forall|k: int| 0 < k < fields@.len() ==> #[trigger] starts@[k] == starts@[k - 1] + fields@[k - 1]@.len() + 1,
            fields@.len() > 0 ==> starts@[0] == 0,
            fields@.len() > 0 ==> cur_start == starts@[fields@.len() - 1] + fields@[fields@.len() - 1]@.len() + 1,
            fields@.len() == 0 ==> cur_start == 0,
            forall|k: int| 0 <= k < fields@.len() ==> #[trigger] starts@[k] + fields@[k]@.len() < cur_start,
            forall|k: int, j: int| 0 <= k < j < fields@.len() ==> #[trigger] starts@[k] + fields@[k]@.len() < #[trigger] starts@[j],
        decreases s@.len() - i,
    {
        let c = s[i];
        let ghost pre = s@.take(i as int);
        assert(s@.take(i + 1).drop_last() =~= pre);
        if c == sep {
            let ghost old_fields = fields@;
            fields.push(cur);
            starts.push(cur_start);
            cur = Vec::new();
            cur_start = i + 1;
            assert(fields@.map_values(|f: Vec<char>| f@) =~= old_fields.map_values(|f: Vec<char>| f@).push(fields@.last()@));
            assert(fields@.map_values(|f: Vec<char>| f@).push(cur@) =~= split_spec(s@.take(i + 1), sep));
            assert(s@.subrange(cur_start as int, i + 1) =~= cur@);
        } else {
            cur.push(c);
            assert(s@.subrange(cur_start as int, i + 1) =~= cur@);
            assert(fields@.map_values(|f: Vec<char>| f@).push(cur@) =~= split_spec(s@.take(i + 1), sep));
        }
        i = i + 1;
    }
    let ghost old_fields = fields@;
    fields.push(cur);
    starts.push(cur_start);
    assert(s@.take(s@.len() as int) =~= s@);
    assert(fields@.map_values(|f: Vec<char>| f@) =~= old_fields.map_values(|f: Vec<char>| f@).push(fields@.last()@));
    (fields, starts)
}

/// A run of digits followed by a period, as in `12.`.
pub open spec fn is_numbered(f: Seq<char>) -> bool {
    f.len() >= 2 && f.last() == '.' && is_number(f.drop_last())
}

/// The verb that marks a decisive game.
pub open spec fn is_defeat_verb(v: Seq<char>) -> bool {
    v == seq!['d', 'e', 'f', '.']
}

/// The verbs that mark a tie.
pub open spec fn is_tie_verb(v: Seq<char>) -> bool {
    v == seq!['t', 'i', 'e'] || v == seq!['t', 'i', 'e', 'd']
}

proof fn lemma_digits_value_prefix(w: Seq<char>, j: int)
    requires
        is_number(w),
        0 <= j <= w.len(),
    ensures
        0 <= digits_value(w.take(j)) <= digits_value(w),
    decreases w.len() - j,
{
    if j < w.len() {
        lemma_digits_value_prefix(w, j + 1);
        assert(w.take(j + 1).drop_last() =~= w.take(j));
        assert(w.take(j + 1).last() == w[j]);
        assert(is_digit(w[j]));
    } else {
        assert(w.take(j) =~= w);
        lemma_digits_value_nonneg(w);
    }
}

proof fn lemma_digits_value_nonneg(w: Seq<char>)
    requires
        is_number(w) || w.len() == 0,
    ensures
        digits_value(w) >= 0,
    decreases w.len(),
{
    if w.len() > 0 {
        assert(is_digit(w[w.len() - 1]));
        if w.len() > 1 {
            assert forall|i: int| 0 <= i < w.drop_last().len() implies is_digit(#[trigger] w.drop_last()[i]) by {
                assert(w.drop_last()[i] == w[i]);
            }
        }
        lemma_digits_value_nonneg(w.drop_last());
    }
}

/// Whether the first `n` characters of `w` are a run of decimal digits.
fn is_number_upto(w: &Vec<char>, n: usize) -> (r: bool)
    requires
        n <= w@.len(),
    ensures
        r == is_number(w@.take(n as int)),
{
    if n == 0 {
        return false;
    }
    let mut i: usize = 0;
    while i < n
        invariant
            n <= w@.len(),
            i <= n,
            forall|k: int| 0 <= k < i ==> is_digit(#[trigger] w@[k]),
        decreases n - i,
    {
        let c = w[i];
        if !('0' <= c && c <= '9') {
            assert(w@.take(n as int)[i as int] == c);
            return false;
        }
        i = i + 1;
    }
    assert forall|k: int| 0 <= k < n implies is_digit(#[trigger] w@.take(n as int)[k]) by {
        assert(w@.take(n as int)[k] == w@[k]);
    }
    true
}

/// Whether `w` is a non-empty run of ASCII letters.
fn is_word_exec(w: &Vec<char>) -> (r: bool)
    ensures
        r == is_word(w@),
{
    if w.len() == 0 {
        return false;
    }
    let mut i: usize = 0;
    while i < w.len()
        invariant
            i <= w@.len(),
            forall|k: int| 0 <= k < i ==> is_letter(#[trigger] w@[k]),
        decreases w@.len() - i,
    {
        let c = w[i];
        if !(('a' <= c && c <= 'z') || ('A' <= c && c <= 'Z')) {
            return false;
        }
        i = i + 1;
    }
    true
}

/// Whether every field from position `from` on is a word.
fn all_words_from(f: &Vec<Vec<char>>, from: usize) -> (r: bool)
    ensures
        r == forall|k: int| from <= k < f@.len() ==> is_word(#[trigger] f@[k]@),
{
    let mut i: usize = from;
    while i < f.len()
        invariant
            from <= i,
            forall|k: int| from <= k < i && k < f@.len() ==> is_word(#[trigger] f@[k]@),
        decreases f@.len() - i,
    {
        if !is_word_exec(&f[i]) {
            return false;
        }
        i = i + 1;
    }
    true
}

/// Whether `w` is a run of digits followed by a period.
fn is_numbered_exec(w: &Vec<char>) -> (r: bool)
    ensures
        r == is_numbered(w@),
{
    if w.len() < 2 || w[w.len() - 1] != '.' {
        return false;
    }
    assert(w@.drop_last() =~= w@.take(w@.len() - 1));
    is_number_upto(w, w.len() - 1)
}

fn is_defeat_verb_exec(v: &Vec<char>) -> (r: bool)
    ensures
        r == is_defeat_verb(v@),
{
    let r = v.len() == 4 && v[0] == 'd' && v[1] == 'e' && v[2] == 'f' && v[3] == '.';
    if r {
        assert(v@ =~= seq!['d', 'e', 'f', '.']);
    }
    r
}

fn is_tie_verb_exec(v: &Vec<char>) -> (r: bool)
    ensures
        r == is_tie_verb(v@),
{
    let three = v.len() == 3 && v[0] == 't' && v[1] == 'i' && v[2] == 'e';
    let four = v.len() == 4 && v[0] == 't' && v[1] == 'i' && v[2] == 'e' && v[3] == 'd';
    if three {
        assert(v@ =~= seq!['t', 'i', 'e']);
    }
    if four {
        assert(v@ =~= seq!['t', 'i', 'e', 'd']);
    }
    if !three && !four {
        assert(v@ != seq!['t', 'i', 'e']) by {
            if v@.len() == 3 {
                assert(seq!['t', 'i', 'e'][0] == 't');
            }
        }
    }
    three || four
}

/// Whether `w` is digits, a period, and digits.
fn is_decimal_exec(w: &Vec<char>) -> (r: bool)
    ensures
        r == is_decimal(w@),
{
    let (p, _) = split_fields(w, '.');
    proof {
        assert forall|k: int| 0 <= k < p@.len() implies #[trigger] p@[k]@ == split_spec(w@, '.')[k] by {
            assert(p@.map_values(|v: Vec<char>| v@)[k] == p@[k]@);
        }
    }
    if p.len() != 2 {
        return false;
    }
    assert(p@[0]@.take(p@[0]@.len() as int) =~= p@[0]@);
    assert(p@[1]@.take(p@[1]@.len() as int) =~= p@[1]@);
    is_number_upto(&p[0], p[0].len()) && is_number_upto(&p[1], p[1].len())
}

/// The value of the first `n` characters of `w`, a run of digits, or `None`
/// where it does not fit in a `u64`.
pub fn number_value(w: &Vec<char>, n: usize) -> (r: Option<u64>)
    requires
        n <= w@.len(),
        is_number(w@.take(n as int)),
    ensures
        match r {
            Some(v) => v == digits_value(w@.take(n as int)),
            None => digits_value(w@.take(n as int)) > u64::MAX,
        },
{
    let ghost d = w@.take(n as int);
    let mut v: u64 = 0;
    let mut i: usize = 0;
    while i < n
        invariant
            n <= w@.len(),
            d == w@.take(n as int),
            is_number(d),
            i <= n,
            v == digits_value(d.take(i as int)),
        decreases n - i,
    {
        assert(d.take(i + 1).drop_last() =~= d.take(i as int));
        assert(d.take(i + 1).last() == w@[i as int]);
        assert(is_digit(d[i as int]));
        let digit = (w[i] as u32 - '0' as u32) as u64;
        if v > (u64::MAX - digit) / 10 {
            proof {
                lemma_digits_value_prefix(d, i + 1);
            }
            return None;
        }
        v = v * 10 + digit;
        i = i + 1;
    }
    assert(d.take(n as int) =~= d);
    Some(v)
}

/// A field that matched its pattern but holds a value that is refused.
#[derive(Clone, Copy, Debug, PartialEq, Eq, Structural)]
pub enum Field {
    /// A prior rank of 0, or one too large for a `u64`.
    Rank,
    /// A left-hand score with a fractional part, or one too large for a `u64`.
    LeftScore,
    /// A right-hand score with a fractional part, or one too large for a `u64`.
    RightScore,
    /// A tie verb with unequal scores, or a defeat verb with equal ones.
    Verb,
}

/// What a game line means.
pub enum GameLine {
    NoMatch,
    Bad(Field),
    Game { left: Seq<char>, right: Seq<char>, left_score: int, right_score: int },
}

/// A roster line is two or more words separated by single spaces: the last
/// word is the mascot and the words before it are the team name.
pub open spec fn roster_line_spec(s: Seq<char>) -> Option<(Seq<char>, Seq<char>)> {
    let f = split_spec(s, ' ');
    if f.len() >= 2 && forall|k: int| 0 <= k < f.len() ==> is_word(#[trigger] f[k]) {
        Some((s.subrange(0, s.len() - f.last().len() - 1), f.last()))
    } else {
        None
    }
}

/// Digits, a period, and digits again, as in `10.5`.
pub open spec fn is_decimal(w: Seq<char>) -> bool {
    let p = split_spec(w, '.');
    p.len() == 2 && is_number(p[0]) && is_number(p[1])
}

/// What stands in the place of a score: a whole number or a decimal one.
pub open spec fn is_score(w: Seq<char>) -> bool {
    is_number(w) || is_decimal(w)
}

/// A game line is `N. A verb B S1-S2` with single spaces: a game number with
/// its period, two mascots, the verb `def.`, `tie` or `tied`, and two
/// non-negative scores. Scores are counted in whole points: a decimal score
/// is refused, as is one too large for a `u64`. The outcome follows from the scores, and the
/// verb must agree with them: a tie verb needs equal scores, `def.` unequal
/// ones.
pub open spec fn game_line_spec(s: Seq<char>) -> GameLine {
    let f = split_spec(s, ' ');
    let sc = split_spec(f[4], '-');
    if !(f.len() == 5 && is_numbered(f[0]) && is_word(f[1]) && (is_defeat_verb(f[2]) || is_tie_verb(f[2]))
        && is_word(f[3]) && sc.len() == 2 && is_score(sc[0]) && is_score(sc[1])) {
        GameLine::NoMatch
    } else {
        let a = digits_value(sc[0]);
        let b = digits_value(sc[1]);
        if !is_number(sc[0]) || a > u64::MAX {
            GameLine::Bad(Field::LeftScore)
        } else if !is_number(sc[1]) || b > u64::MAX {
            GameLine::Bad(Field::RightScore)
        } else if is_tie_verb(f[2]) != (a == b) {
            GameLine::Bad(Field::Verb)
        } else {
            GameLine::Game { left: f[1], right: f[3], left_score: a, right_score: b }
        }
    }
}

/// What a prior-seeding line means.
pub enum SeedLine {
    NoMatch,
    Bad(Field),
    Seed { rank: int, name: Seq<char>, mascot: Seq<char> },
}

/// A prior-seeding line is `N. TeamName Mascot` with single spaces: the
/// previous rank with its period, then a roster line. The rank is positive:
/// a rank of 0 is refused.
pub open spec fn seed_line_spec(s: Seq<char>) -> SeedLine {
    let f = split_spec(s, ' ');
    if !(f.len() >= 3 && is_numbered(f[0]) && forall|k: int| 1 <= k < f.len() ==> is_word(#[trigger] f[k])) {
        SeedLine::NoMatch
    } else if digits_value(f[0].drop_last()) > u64::MAX || digits_value(f[0].drop_last()) == 0 {
        SeedLine::Bad(Field::Rank)
    } else {
        SeedLine::Seed {
            rank: digits_value(f[0].drop_last()),
            name: s.subrange(f[0].len() + 1int, s.len() - f.last().len() - 1),
            mascot: f.last(),
        }
    }
}

pub open spec fn game_view(g: GameRecord) -> GameLine {
    GameLine::Game { left: g.left@, right: g.right@, left_score: g.left_score as int, right_score: g.right_score as int }
}

pub open spec fn seed_view(r: SeedRecord) -> SeedLine {
    SeedLine::Seed { rank: r.rank as int, name: r.name@, mascot: r.mascot@ }
}

pub open spec fn game_views(gs: Seq<GameRecord>) -> Seq<GameLine> {
    gs.map_values(|g: GameRecord| game_view(g))
}

pub open spec fn seed_views(ss: Seq<SeedRecord>) -> Seq<SeedLine> {
    ss.map_values(|e: SeedRecord| seed_view(e))
}

/// Reads one roster line; `None` where the line is not one.
pub fn parse_roster_line(line: &str) -> (r: Option<RosterEntry>)
    ensures
        match r {
            Some(e) => roster_line_spec(line@) == Some((e.name@, e.mascot@)),
            None => roster_line_spec(line@) is None,
        },
{
    let s = chars_of(line);
    let (f, st) = split_fields(&s, ' ');
    proof {
        assert forall|k: int| 0 <= k < f@.len() implies #[trigger] f@[k]@ == split_spec(line@, ' ')[k] by {
            assert(f@.map_values(|v: Vec<char>| v@)[k] == f@[k]@);
        }
    }
    let n = f.len();
    if n < 2 || !all_words_from(&f, 0) {
        return None;
    }
    let last = n - 1;
    assert(st@[last as int] == st@[last - 1] + f@[last - 1]@.len() + 1);
    let name = line.substring_char(0, st[last] - 1).to_owned();
    let mascot = line.substring_char(st[last], s.len()).to_owned();
    Some(RosterEntry { name, mascot })
}

/// Reads one game line; `Ok(None)` where the line is not one, `Err` where it
/// is one with a refused field.
pub fn parse_game_line(line: &str) -> (r: Result<Option<GameRecord>, Field>)
    ensures
        match r {
            Ok(None) => game_line_spec(line@) is NoMatch,
            Ok(Some(g)) => game_line_spec(line@) == game_view(g),
            Err(e) => game_line_spec(line@) == GameLine::Bad(e),
        },
{
    let s = chars_of(line);
    let (f, st) = split_fields(&s, ' ');
    proof {
        assert forall|k: int| 0 <= k < f@.len() implies #[trigger] f@[k]@ == split_spec(line@, ' ')[k] by {
            assert(f@.map_values(|v: Vec<char>| v@)[k] == f@[k]@);
        }
    }
    if f.len() != 5 {
        return Ok(None);
    }
    if !is_numbered_exec(&f[0]) || !is_word_exec(&f[1]) || !(is_defeat_verb_exec(&f[2]) || is_tie_verb_exec(&f[2]))
        || !is_word_exec(&f[3]) {
        return Ok(None);
    }
    let (sc, _) = split_fields(&f[4], '-');
    proof {
        assert forall|k: int| 0 <= k < sc@.len() implies #[trigger] sc@[k]@ == split_spec(f@[4]@, '-')[k] by {
            assert(sc@.map_values(|v: Vec<char>| v@)[k] == sc@[k]@);
        }
    }
    if sc.len() != 2 {
        return Ok(None);
    }
    assert(sc@[0]@.take(sc@[0]@.len() as int) =~= sc@[0]@);
    assert(sc@[1]@.take(sc@[1]@.len() as int) =~= sc@[1]@);
    let whole0 = is_number_upto(&sc[0], sc[0].len());
    let whole1 = is_number_upto(&sc[1], sc[1].len());
    if !(whole0 || is_decimal_exec(&sc[0])) || !(whole1 || is_decimal_exec(&sc[1])) {
        return Ok(None);
    }
    if !whole0 {
        return Err(Field::LeftScore);
    }
    let a = match number_value(&sc[0], sc[0].len()) {
        Some(v) => v,
        None => {
            return Err(Field::LeftScore);
        },
    };
    if !whole1 {
        return Err(Field::RightScore);
    }
    let b = match number_value(&sc[1], sc[1].len()) {
        Some(v) => v,
        None => {
            return Err(Field::RightScore);
        },
    };
    if is_tie_verb_exec(&f[2]) != (a == b) {
        return Err(Field::Verb);
    }
    let left = line.substring_char(st[1], st[1] + f[1].len()).to_owned();
    let right = line.substring_char(st[3], st[3] + f[3].len()).to_owned();
    Ok(Some(GameRecord { left, right, left_score: a, right_score: b }))
}

/// Reads one prior-seeding line; `Ok(None)` where the line is not one, `Err`
/// where its rank is 0 or does not fit in a `u64`.
pub fn parse_seed_line(line: &str) -> (r: Result<Option<SeedRecord>, Field>)
    ensures
        match r {
            Ok(None) => seed_line_spec(line@) is NoMatch,
            Ok(Some(e)) => seed_line_spec(line@) == seed_view(e),
            Err(e) => seed_line_spec(line@) == SeedLine::Bad(e),
        },
{
    let s = chars_of(line);
    let (f, st) = split_fields(&s, ' ');
    proof {
        assert forall|k: int| 0 <= k < f@.len() implies #[trigger] f@[k]@ == split_spec(line@, ' ')[k] by {
            assert(f@.map_values(|v: Vec<char>| v@)[k] == f@[k]@);
        }
    }
    let n = f.len();
    if n < 3 || !is_numbered_exec(&f[0]) || !all_words_from(&f, 1) {
        return Ok(None);
    }
    assert(f@[0]@.drop_last() =~= f@[0]@.take(f@[0]@.len() - 1));
    let rank = match number_value(&f[0], f[0].len() - 1) {
        Some(v) => v,
        None => {
            return Err(Field::Rank);
        },
    };
    if rank == 0 {
        return Err(Field::Rank);
    }
    let last = n - 1;
    assert(st@[1] + f@[1]@.len() < st@[last as int]);
    let name = line.substring_char(st[1], st[last] - 1).to_owned();
    let mascot = line.substring_char(st[last], s.len()).to_owned();
    Ok(Some(SeedRecord { rank, name, mascot }))
}

/// A refused field together with its 1-based line number.
#[derive(Clone, Copy, Debug, PartialEq, Eq, Structural)]
pub struct LineError {
    pub line: usize,
    pub field: Field,
}

pub open spec fn line_views(lines: Seq<String>) -> Seq<Seq<char>> {
    lines.map_values(|l: String| l@)
}

/// The (name, mascot) pairs of the roster lines among `lines`, in order.
pub open spec fn roster_entries(lines: Seq<Seq<char>>) -> Seq<(Seq<char>, Seq<char>)>
    decreases lines.len(),
{
    if lines.len() == 0 {
        Seq::empty()
    } else {
        let r = roster_entries(lines.drop_last());
        match roster_line_spec(lines.last()) {
            Some(p) => r.push(p),
            None => r,
        }
    }
}

/// The games that the game lines among `lines` describe, in order.
pub open spec fn game_entries(lines: Seq<Seq<char>>) -> Seq<GameLine>
    decreases lines.len(),
{
    if lines.len() == 0 {
        Seq::empty()
    } else {
        let r = game_entries(lines.drop_last());
        match game_line_spec(lines.last()) {
            GameLine::Game { .. } => r.push(game_line_spec(lines.last())),
            _ => r,
        }
    }
}

/// The records that the prior-seeding lines among `lines` describe, in order.
pub open spec fn seed_entries(lines: Seq<Seq<char>>) -> Seq<SeedLine>
    decreases lines.len(),
{
    if lines.len() == 0 {
        Seq::empty()
    } else {
        let r = seed_entries(lines.drop_last());
        match seed_line_spec(lines.last()) {
            SeedLine::Seed { .. } => r.push(seed_line_spec(lines.last())),
            _ => r,
        }
    }
}

/// Reads a roster file's lines; lines that are not roster lines are skipped.
pub fn parse_roster(lines: &Vec<String>) -> (r: Vec<RosterEntry>)
    ensures
        r@.map_values(|e: RosterEntry| (e.name@, e.mascot@)) == roster_entries(line_views(lines@)),
{
    let mut out: Vec<RosterEntry> = Vec::new();
    let mut i: usize = 0;
    while i < lines.len()
        invariant
            i <= lines@.len(),
            out@.map_values(|e: RosterEntry| (e.name@, e.mascot@)) == roster_entries(line_views(lines@.take(i as int))),
        decreases lines@.len() - i,
    {
        assert(line_views(lines@.take(i + 1)).drop_last() =~= line_views(lines@.take(i as int)));
        assert(line_views(lines@.take(i + 1)).last() == lines@[i as int]@);
        let ghost before = out@;
        match parse_roster_line(lines[i].as_str()) {
            Some(e) => {
                out.push(e);
                assert(out@.map_values(|e: RosterEntry| (e.name@, e.mascot@))
                    =~= before.map_values(|e: RosterEntry| (e.name@, e.mascot@)).push((out@.last().name@, out@.last().mascot@)));
            },
            None => {},
        }
        i = i + 1;
    }
    assert(lines@.take(lines@.len() as int) =~= lines@);
    out
}

/// Reads a game file's lines; lines that are not game lines are skipped, and
/// the first game line with a refused field is an error.
pub fn parse_games(lines: &Vec<String>) -> (r: Result<Vec<GameRecord>, LineError>)
    ensures
        match r {
            Ok(v) => {
                &&& forall|i: int| 0 <= i < lines@.len() ==> !(game_line_spec(#[trigger] lines@[i]@) is Bad)
                &&& v@.map_values(|g: GameRecord| game_view(g)) == game_entries(line_views(lines@))
            },
            Err(e) => {
                &&& 1 <= e.line <= lines@.len()
                &&& game_line_spec(lines@[e.line - 1]@) == GameLine::Bad(e.field)
                &&& forall|i: int| 0 <= i < e.line - 1 ==> !(game_line_spec(#[trigger] lines@[i]@) is Bad)
            },
        },
{
    let mut out: Vec<GameRecord> = Vec::new();
    let mut i: usize = 0;
    while i < lines.len()
        invariant
            i <= lines@.len(),
            out@.map_values(|g: GameRecord| game_view(g)) == game_entries(line_views(lines@.take(i as int))),
            forall|j: int| 0 <= j < i ==> !(game_line_spec(#[trigger] lines@[j]@) is Bad),
        decreases lines@.len() - i,
    {
        assert(line_views(lines@.take(i + 1)).drop_last() =~= line_views(lines@.take(i as int)));
        assert(line_views(lines@.take(i + 1)).last() == lines@[i as int]@);
        let ghost before = out@;
        match parse_game_line(lines[i].as_str()) {
            Ok(Some(g)) => {
                out.push(g);
                assert(out@.map_values(|g: GameRecord| game_view(g))
                    =~= before.map_values(|g: GameRecord| game_view(g)).push(game_view(out@.last())));
            },
            Ok(None) => {},
            Err(field) => {
                return Err(LineError { line: i + 1, field });
            },
        }
        i = i + 1;
    }
    assert(lines@.take(lines@.len() as int) =~= lines@);
    Ok(out)
}

/// Reads a prior-seeding file's lines; lines that are not seeding lines are
/// skipped, and the first one whose rank is refused is an error.
pub fn parse_seeds(lines: &Vec<String>) -> (r: Result<Vec<SeedRecord>, LineError>)
    ensures
        match r {
            Ok(v) => {
                &&& forall|i: int| 0 <= i < lines@.len() ==> !(seed_line_spec(#[trigger] lines@[i]@) is Bad)
                &&& v@.map_values(|e: SeedRecord| seed_view(e)) == seed_entries(line_views(lines@))
            },
            Err(e) => {
                &&& 1 <= e.line <= lines@.len()
                &&& seed_line_spec(lines@[e.line - 1]@) == SeedLine::Bad(e.field)
                &&& forall|i: int| 0 <= i < e.line - 1 ==> !(seed_line_spec(#[trigger] lines@[i]@) is Bad)
            },
        },
{
    let mut out: Vec<SeedRecord> = Vec::new();
    let mut i: usize = 0;
    while i < lines.len()
        invariant
            i <= lines@.len(),
            out@.map_values(|e: SeedRecord| seed_view(e)) == seed_entries(line_views(lines@.take(i as int))),
            forall|j: int| 0 <= j < i ==> !(seed_line_spec(#[trigger] lines@[j]@) is Bad),
        decreases lines@.len() - i,
    {
        assert(line_views(lines@.take(i + 1)).drop_last() =~= line_views(lines@.take(i as int)));
        assert(line_views(lines@.take(i + 1)).last() == lines@[i as int]@);
        let ghost before = out@;
        match parse_seed_line(lines[i].as_str()) {
            Ok(Some(e)) => {
                out.push(e);
                assert(out@.map_values(|e: SeedRecord| seed_view(e))
                    =~= before.map_values(|e: SeedRecord| seed_view(e)).push(seed_view(out@.last())));
            },
            Ok(None) => {},
            Err(field) => {
                return Err(LineError { line: i + 1, field });
            },
        }
        i = i + 1;
    }
    assert(lines@.take(lines@.len() as int) =~= lines@);
    Ok(out)
}

/// The 1-based numbers of the game lines among `lines`, in order: the line
/// that each entry of `game_entries(lines)` comes from.
pub open spec fn game_line_numbers(lines: Seq<Seq<char>>) -> Seq<int>
    decreases lines.len(),
{
    if lines.len() == 0 {
        Seq::empty()
    } else {
        let r = game_line_numbers(lines.drop_last());
        if game_line_spec(lines.last()) is Game {
            r.push(lines.len() as int)
        } else {
            r
        }
    }
}

/// The 1-based numbers of the prior-seeding lines among `lines`, in order:
/// the line that each entry of `seed_entries(lines)` comes from.
pub open spec fn seed_line_numbers(lines: Seq<Seq<char>>) -> Seq<int>
    decreases lines.len(),
{
    if lines.len() == 0 {
        Seq::empty()
    } else {
        let r = seed_line_numbers(lines.drop_last());
        if seed_line_spec(lines.last()) is Seed {
            r.push(lines.len() as int)
        } else {
            r
        }
    }
}

proof fn lemma_game_line_numbers_len(lines: Seq<Seq<char>>)
    ensures
        game_line_numbers(lines).len() == game_entries(lines).len(),
    decreases lines.len(),
{
    if lines.len() > 0 {
        lemma_game_line_numbers_len(lines.drop_last());
    }
}

proof fn lemma_seed_line_numbers_len(lines: Seq<Seq<char>>)
    ensures
        seed_line_numbers(lines).len() == seed_entries(lines).len(),
    decreases lines.len(),
{
    if lines.len() > 0 {
        lemma_seed_line_numbers_len(lines.drop_last());
    }
}

/// The line numbers of the game lines, one per game that `parse_games` reads.
pub fn game_lines_of(lines: &Vec<String>) -> (r: Vec<usize>)
    ensures
        r@.map_values(|n: usize| n as int) == game_line_numbers(line_views(lines@)),
        r@.len() == game_entries(line_views(lines@)).len(),
{
    let mut out: Vec<usize> = Vec::new();
    let mut i: usize = 0;
    while i < lines.len()
        invariant
            i <= lines@.len(),
            out@.map_values(|n: usize| n as int) == game_line_numbers(line_views(lines@.take(i as int))),
        decreases lines@.len() - i,
    {
        assert(line_views(lines@.take(i + 1)).drop_last() =~= line_views(lines@.take(i as int)));
        assert(line_views(lines@.take(i + 1)).last() == lines@[i as int]@);
        assert(line_views(lines@.take(i + 1)).len() == i + 1);
        let ghost before = out@;
        match parse_game_line(lines[i].as_str()) {
            Ok(Some(_)) => {
                out.push(i + 1);
                assert(out@.map_values(|n: usize| n as int) =~= before.map_values(|n: usize| n as int).push(i + 1));
            },
            _ => {},
        }
        i = i + 1;
    }
    assert(lines@.take(lines@.len() as int) =~= lines@);
    proof {
        lemma_game_line_numbers_len(line_views(lines@));
    }
    out
}

/// The line numbers of the prior-seeding lines, one per record that
/// `parse_seeds` reads.
pub fn seed_lines_of(lines: &Vec<String>) -> (r: Vec<usize>)
    ensures
        r@.map_values(|n: usize| n as int) == seed_line_numbers(line_views(lines@)),
        r@.len() == seed_entries(line_views(lines@)).len(),
{
    let mut out: Vec<usize> = Vec::new();
    let mut i: usize = 0;
    while i < lines.len()
        invariant
            i <= lines@.len(),
            out@.map_values(|n: usize| n as int) == seed_line_numbers(line_views(lines@.take(i as int))),
        decreases lines@.len() - i,
    {
        assert(line_views(lines@.take(i + 1)).drop_last() =~= line_views(lines@.take(i as int)));
        assert(line_views(lines@.take(i + 1)).last() == lines@[i as int]@);
        assert(line_views(lines@.take(i + 1)).len() == i + 1);
        let ghost before = out@;
        match parse_seed_line(lines[i].as_str()) {
            Ok(Some(_)) => {
                out.push(i + 1);
                assert(out@.map_values(|n: usize| n as int) =~= before.map_values(|n: usize| n as int).push(i + 1));
            },
            _ => {},
        }
        i = i + 1;
    }
    assert(lines@.take(lines@.len() as int) =~= lines@);
    proof {
        lemma_seed_line_numbers_len(line_views(lines@));
    }
    out
}

} // verus!
