use vstd::prelude::*;
use vstd::arithmetic::div_mod::{lemma_fundamental_div_mod, lemma_fundamental_div_mod_converse};

verus! {

/// The composite ranking score: `floor((wins / games + points_for / points_against) * 100)`,
/// where `games = wins + losses + ties`.
///
/// A quotient whose denominator is zero counts as zero: a team with no games
/// has no win fraction, and a team that allowed no points has no for/against
/// ratio. Both are counted as 0 in the sum.
pub open spec fn overall_score_spec(wins: int, losses: int, ties: int, points_for: int, points_against: int) -> int {
    let games = wins + losses + ties;
    if games == 0 && points_against == 0 {
        0
    } else if games == 0 {
        (100 * points_for) / points_against
    } else if points_against == 0 {
        (100 * wins) / games
    } else {
        (100 * wins * points_against + 100 * points_for * games) / (games * points_against)
    }
}

/// Splits `floor(x / g + y / a)` into the two floors and the carry of the remainders.
proof fn lemma_floor_of_sum(x: int, g: int, y: int, a: int)
    requires
        x >= 0,
        y >= 0,
        g > 0,
        a > 0,
    ensures
        ({
            let r1 = x % g;
            let r2 = y % a;
            let carry: int = if r1 * a >= g * (a - r2) { 1 } else { 0 };
            (x * a + y * g) / (g * a) == x / g + y / a + carry
        }),
{
    let q1 = x / g;
    let r1 = x % g;
    let q2 = y / a;
    let r2 = y % a;
    lemma_fundamental_div_mod(x, g);
    lemma_fundamental_div_mod(y, a);
    assert(0 <= r1 < g && 0 <= r2 < a);
    assert(x * a + y * g == (q1 + q2) * (g * a) + (r1 * a + r2 * g)) by (nonlinear_arith)
        requires
            x == g * q1 + r1,
            y == a * q2 + r2,
    ;
    assert(0 <= r1 * a + r2 * g < 2 * (g * a)) by (nonlinear_arith)
        requires
            0 <= r1 < g,
            0 <= r2 < a,
    ;
    if r1 * a >= g * (a - r2) {
        assert(r1 * a + r2 * g >= g * a) by (nonlinear_arith)
            requires
                r1 * a >= g * (a - r2),
        ;
        assert(x * a + y * g == (q1 + q2 + 1) * (g * a) + (r1 * a + r2 * g - g * a)) by (nonlinear_arith)
            requires
                x * a + y * g == (q1 + q2) * (g * a) + (r1 * a + r2 * g),
        ;
        lemma_fundamental_div_mod_converse(x * a + y * g, g * a, q1 + q2 + 1, r1 * a + r2 * g - g * a);
    } else {
        assert(r1 * a + r2 * g < g * a) by (nonlinear_arith)
            requires
                r1 * a < g * (a - r2),
        ;
        lemma_fundamental_div_mod_converse(x * a + y * g, g * a, q1 + q2, r1 * a + r2 * g);
    }
}

/// Computes `overall_score_spec` exactly, in integer arithmetic.
pub fn overall_score(wins: u64, losses: u64, ties: u64, points_for: u64, points_against: u64) -> (r: u128)
    requires
        wins + losses + ties <= u64::MAX,
    ensures
        r == overall_score_spec(wins as int, losses as int, ties as int, points_for as int, points_against as int),
{
    let games: u128 = wins as u128 + losses as u128 + ties as u128;
    let against: u128 = points_against as u128;
    let x: u128 = 100 * (wins as u128);
    let y: u128 = 100 * (points_for as u128);
    if games == 0 && against == 0 {
        0
    } else if games == 0 {
        y / against
    } else if against == 0 {
        x / games
    } else {
        let q1: u128 = x / games;
        let r1: u128 = x % games;
        let q2: u128 = y / against;
        let r2: u128 = y % against;
        assert(r1 * against <= u64::MAX * u64::MAX) by (nonlinear_arith)
            requires
                r1 < games <= u64::MAX,
                against <= u64::MAX,
        ;
        assert(games * (against - r2) <= u64::MAX * u64::MAX) by (nonlinear_arith)
            requires
                games <= u64::MAX,
                0 < against - r2 <= u64::MAX,
        ;
        assert(q1 <= 100) by (nonlinear_arith)
            requires
                x == 100 * wins,
                wins <= games,
                games > 0,
                q1 == x / games,
        ;
        assert(q2 <= y) by (nonlinear_arith)
            requires
                against > 0,
                y >= 0,
                q2 == y / against,
        ;
        let carry: u128 = if r1 * against >= games * (against - r2) { 1 } else { 0 };
        proof {
            lemma_floor_of_sum(x as int, games as int, y as int, against as int);
            assert((100 * wins * points_against + 100 * points_for * games) == x * against + y * games) by (nonlinear_arith)
                requires
                    x == 100 * wins,
                    y == 100 * points_for,
                    against == points_against,
            ;
        }
        q1 + q2 + carry
    }
}

} // verus!
