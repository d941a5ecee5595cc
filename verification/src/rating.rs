//! The rating engine: what a finished game does to the ratings of the two
//! teams.
//!
//! The rating follows Elo with a stake of 32 points. A team is rated by the
//! mean of its members. The winner's expected score is
//! `1 / (1 + 10^((opponent - own) / 400))`, and the winner takes the stake
//! times one minus that expectation, rounded to the nearest whole point; the
//! loser gives up the same amount. Because the rounded gain is a step
//! function of the gap between the two means, the engine holds the steps
//! themselves: for each number of points, the smallest gap at which the
//! winner takes that many.

use vstd::prelude::*;

verus! {

/// Points at stake in one game.
pub const K_FACTOR: i64 = 32;

/// The smallest gap (opponent's mean minus own mean) at which the winner
/// takes at least `k` points, for `k` from 1 to 32.
pub open spec fn threshold(k: usize) -> int {
    match k {
        1 => -719,
        2 => -523,
        3 => -428,
        4 => -364,
        5 => -314,
        6 => -273,
        7 => -237,
        8 => -205,
        9 => -176,
        10 => -149,
        11 => -124,
        12 => -100,
        13 => -77,
        14 => -54,
        15 => -32,
        16 => -10,
        17 => 11,
        18 => 33,
        19 => 55,
        20 => 78,
        21 => 101,
        22 => 125,
        23 => 150,
        24 => 177,
        25 => 206,
        26 => 238,
        27 => 274,
        28 => 315,
        29 => 365,
        30 => 429,
        31 => 524,
        _ => 720,
    }
}

/// How many of the thresholds 1 to `k` the gap has reached.
pub open spec fn steps_reached(gap: int, k: nat) -> int
    decreases k,
{
    if k == 0 {
        0
    } else {
        steps_reached(gap, (k - 1) as nat) + if threshold(k as usize) <= gap {
            1int
        } else {
            0int
        }
    }
}

/// The points the winner takes when the opponent's mean rating exceeds its
/// own by `gap`.
pub open spec fn win_gain(gap: int) -> int {
    steps_reached(gap, 32)
}

/// The sum of a team's ratings.
pub open spec fn total(scores: Seq<u32>) -> int
    decreases scores.len(),
{
    if scores.len() == 0 {
        0
    } else {
        total(scores.drop_last()) + scores.last()
    }
}

/// The rating of a team: the arithmetic mean of its members, rounded down.
/// A team without members rates 0.
pub open spec fn mean(scores: Seq<u32>) -> int {
    if scores.len() == 0 {
        0
    } else {
        total(scores) / (scores.len() as int)
    }
}

/// The change of rating of each member of the first team.
pub open spec fn delta_a(scores_a: Seq<u32>, scores_b: Seq<u32>, a_won: bool) -> int {
    if a_won {
        win_gain(mean(scores_b) - mean(scores_a))
    } else {
        -win_gain(mean(scores_a) - mean(scores_b))
    }
}

/// The change of rating of each member of the second team: what the first
/// team gains, the second loses.
pub open spec fn delta_b(scores_a: Seq<u32>, scores_b: Seq<u32>, a_won: bool) -> int {
    -delta_a(scores_a, scores_b, a_won)
}

/// A rating after a change: never below zero, never above what the field holds.
pub open spec fn rated(score: u32, delta: int) -> int {
    if score + delta < 0 {
        0
    } else if score + delta > u32::MAX {
        u32::MAX as int
    } else {
        score + delta
    }
}

/// The sum of a list of changes.
pub open spec fn sum(deltas: Seq<i64>) -> int
    decreases deltas.len(),
{
    if deltas.len() == 0 {
        0
    } else {
        sum(deltas.drop_last()) + deltas.last()
    }
}

fn gain_threshold(k: usize) -> (t: i64)
    requires
        1 <= k <= 32,
    ensures
        t == threshold(k),
{
    match k {
        1 => -719,
        2 => -523,
        3 => -428,
        4 => -364,
        5 => -314,
        6 => -273,
        7 => -237,
        8 => -205,
        9 => -176,
        10 => -149,
        11 => -124,
        12 => -100,
        13 => -77,
        14 => -54,
        15 => -32,
        16 => -10,
        17 => 11,
        18 => 33,
        19 => 55,
        20 => 78,
        21 => 101,
        22 => 125,
        23 => 150,
        24 => 177,
        25 => 206,
        26 => 238,
        27 => 274,
        28 => 315,
        29 => 365,
        30 => 429,
        31 => 524,
        _ => 720,
    }
}

/// The points the winner takes for a given gap.
pub fn gain(gap: i64) -> (g: i64)
    ensures
        g == win_gain(gap as int),
        0 <= g <= K_FACTOR,
{
    let mut g: i64 = 0;
    let mut k: usize = 0;
    while k < 32
        invariant
            k <= 32,
            g == steps_reached(gap as int, k as nat),
            0 <= g <= k,
        decreases 32 - k,
    {
        k = k + 1;
        if gain_threshold(k) <= gap {
            g = g + 1;
        }
    }
    g
}

/// The mean rating of a team.
pub fn team_mean(scores: &Vec<u32>) -> (m: u32)
    ensures
        m == mean(scores@),
{
    let n = scores.len();
    if n == 0 {
        return 0;
    }
    let mut acc: u128 = 0;
    let mut i: usize = 0;
    while i < n
        invariant
            n == scores.len(),
            i <= n,
            acc == total(scores@.take(i as int)),
            acc <= i * 0xffff_ffff,
        decreases n - i,
    {
        proof {
            let cur = scores@.take(i + 1);
            assert(cur.drop_last() =~= scores@.take(i as int));
            assert(cur.last() == scores@[i as int]);
            assert((i + 1) * 0xffff_ffff == i * 0xffff_ffff + 0xffff_ffff) by (nonlinear_arith);
            assert(i * 0xffff_ffff <= 0xffff_ffff_ffff_ffff * 0xffff_ffff) by (nonlinear_arith)
                requires
                    i <= 0xffff_ffff_ffff_ffff,
            ;
        }
        acc = acc + scores[i] as u128;
        i = i + 1;
    }
    proof {
        assert(scores@.take(n as int) =~= scores@);
        assert(acc / (n as u128) <= 0xffff_ffff) by (nonlinear_arith)
            requires
                acc <= n * 0xffff_ffff,
                n > 0,
        ;
    }
    (acc / (n as u128)) as u32
}

/// A list of `n` equal changes.
fn repeated(delta: i64, n: usize) -> (v: Vec<i64>)
    ensures
        v@ == Seq::new(n as nat, |i: int| delta),
{
    let mut v: Vec<i64> = Vec::new();
    let mut i: usize = 0;
    while i < n
        invariant
            i <= n,
            v@ == Seq::new(i as nat, |j: int| delta),
        decreases n - i,
    {
        v.push(delta);
        i = i + 1;
        assert(v@ =~= Seq::new(i as nat, |j: int| delta));
    }
    v
}

/// The rating changes of a finished game: one change for each member of the
/// first team and one for each member of the second, in the order given.
pub fn update(scores_a: &Vec<u32>, scores_b: &Vec<u32>, team_a_won: bool) -> (deltas: (
    Vec<i64>,
    Vec<i64>,
))
    ensures
        deltas.0@ == Seq::new(scores_a@.len(), |i: int| delta_a(scores_a@, scores_b@, team_a_won) as i64),
        deltas.1@ == Seq::new(scores_b@.len(), |i: int| delta_b(scores_a@, scores_b@, team_a_won) as i64),
        -K_FACTOR <= delta_a(scores_a@, scores_b@, team_a_won) <= K_FACTOR,
{
    let for_a = team_delta(scores_a, scores_b, team_a_won);
    (repeated(for_a, scores_a.len()), repeated(-for_a, scores_b.len()))
}

/// The change of rating of each member of the first team; each member of
/// the second team changes by as much the other way.
pub fn team_delta(scores_a: &Vec<u32>, scores_b: &Vec<u32>, team_a_won: bool) -> (delta: i64)
    ensures
        delta == delta_a(scores_a@, scores_b@, team_a_won),
        -K_FACTOR <= delta <= K_FACTOR,
{
    let mean_a = team_mean(scores_a) as i64;
    let mean_b = team_mean(scores_b) as i64;
    if team_a_won {
        gain(mean_b - mean_a)
    } else {
        -gain(mean_a - mean_b)
    }
}

/// Applies a change to a rating.
pub fn apply_delta(score: u32, delta: i64) -> (r: u32)
    ensures
        r == rated(score, delta as int),
{
    let next: i128 = score as i128 + delta as i128;
    if next < 0 {
        0
    } else if next > 0xffff_ffff {
        0xffff_ffff
    } else {
        next as u32
    }
}

/// The winner never takes less than nothing nor more than the stake.
pub proof fn gain_is_bounded(gap: int)
    ensures
        0 <= win_gain(gap) <= K_FACTOR,
{
    reveal_with_fuel(steps_reached, 33);
}

/// Beating a stronger opponent pays at least as much as beating a weaker one.
pub proof fn gain_is_monotone(gap1: int, gap2: int)
    requires
        gap1 <= gap2,
    ensures
        win_gain(gap1) <= win_gain(gap2),
{
    steps_are_monotone(gap1, gap2, 32);
}

/// A larger gap has reached every threshold that a smaller gap has.
pub proof fn steps_are_monotone(gap1: int, gap2: int, k: nat)
    requires
        gap1 <= gap2,
    ensures
        steps_reached(gap1, k) <= steps_reached(gap2, k),
    decreases k,
{
    if k > 0 {
        steps_are_monotone(gap1, gap2, (k - 1) as nat);
    }
}

/// Between equals the winner takes half the stake.
pub proof fn gain_between_equals()
    ensures
        win_gain(0) == 16,
{
    reveal_with_fuel(steps_reached, 33);
}

/// What one side would take by winning and what the other would take by
/// winning add up to the stake.
pub proof fn gain_is_symmetric(gap: int)
    ensures
        win_gain(gap) + win_gain(-gap) == K_FACTOR,
{
    reveal_with_fuel(steps_reached, 33);
}

/// The sum of `n` equal changes.
pub proof fn sum_of_repeated(delta: i64, n: nat)
    ensures
        sum(Seq::new(n, |i: int| delta)) == n * delta,
    decreases n,
{
    let s = Seq::new(n, |i: int| delta);
    assert(s.len() == n);
    if n > 0 {
        assert(s.drop_last() =~= Seq::new((n - 1) as nat, |i: int| delta));
        assert(s.last() == delta);
        sum_of_repeated(delta, (n - 1) as nat);
        assert(n * delta == (n - 1) * delta + delta) by (nonlinear_arith);
        assert(sum(s) == sum(s.drop_last()) + s.last());
    } else {
        assert(n * delta == 0) by (nonlinear_arith)
            requires
                n == 0,
        ;
    }
}

/// Between teams of equal size the rating changes of a game add up to zero.
pub proof fn update_is_zero_sum(scores_a: Seq<u32>, scores_b: Seq<u32>, a_won: bool)
    requires
        scores_a.len() == scores_b.len(),
    ensures
        sum(Seq::new(scores_a.len(), |i: int| delta_a(scores_a, scores_b, a_won) as i64)) + sum(
            Seq::new(scores_b.len(), |i: int| delta_b(scores_a, scores_b, a_won) as i64),
        ) == 0,
{
    let da = delta_a(scores_a, scores_b, a_won);
    let db = delta_b(scores_a, scores_b, a_won);
    gain_is_bounded(mean(scores_b) - mean(scores_a));
    gain_is_bounded(mean(scores_a) - mean(scores_b));
    let n = scores_a.len();
    sum_of_repeated(da as i64, n);
    sum_of_repeated(db as i64, n);
    assert(Seq::new(n, |i: int| delta_a(scores_a, scores_b, a_won) as i64) =~= Seq::new(
        n,
        |i: int| da as i64,
    ));
    assert(Seq::new(n, |i: int| delta_b(scores_a, scores_b, a_won) as i64) =~= Seq::new(
        n,
        |i: int| db as i64,
    ));
    assert(n * da + n * db == 0) by (nonlinear_arith)
        requires
            db == -da,
    ;
}

/// A rating never drops below zero.
pub proof fn rating_stays_non_negative(score: u32, delta: int)
    ensures
        0 <= rated(score, delta) <= u32::MAX,
        score + delta >= 0 && score + delta <= u32::MAX ==> rated(score, delta) == score + delta,
{
}

} // verus!
