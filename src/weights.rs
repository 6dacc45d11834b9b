//! Teams, their records, and the composite weight of each team.
//!
//! A weight is an exact fraction. Win percentages are given in millionths and
//! points in thousandths of a point; the stage multipliers 1.2, 2.4 and 3.0 are
//! written in fifths (6/5, 12/5, 15/5).

use vstd::prelude::*;

verus! {

/// The number of opponents assumed in the all-play pool of every week.
///
/// It is fixed, whatever the size of the league: in a league of another size
/// the all-play win weight is not a share of the wins that were possible.
pub const ALL_PLAY_POOL: u32 = 10;

/// A win percentage of 1 in the millionths that records use.
pub const PERCENT_SCALE: u128 = 1000000;

/// The denominator of a win-percentage weight: millionths times fifths.
pub const WIN_PERCENTAGE_DENOMINATOR: u128 = 5 * PERCENT_SCALE;

/// A team's season statistics as the snapshot supplies them.
#[derive(Clone, Copy, Debug, PartialEq, Eq, Structural)]
pub struct Record {
    pub overall_losses: u8,
    /// The win percentage in millionths (1000000 is a perfect record).
    pub overall_percentage: u32,
    pub overall_wins: u8,
    /// The points scored this season, in thousandths of a point.
    pub points_for: u32,
}

/// A team of the league with its record.
pub struct Team {
    pub record: Record,
    pub team_id: u8,
    pub team_location: String,
    pub team_nickname: String,
    /// The all-play win count, 0 until it is computed.
    pub overall_wins: u32,
}

/// An exact non-negative fraction.
#[derive(Clone, Copy, Debug, PartialEq, Eq, Structural)]
pub struct Weight {
    pub numerator: u128,
    pub denominator: u128,
}

/// Why no ranking can be computed.
#[derive(Clone, Copy, Debug, PartialEq, Eq, Structural)]
pub enum RankingError {
    /// No team has scored a point, so points cannot be compared to the leader's.
    NoScoringData,
}

impl Weight {
    /// The fraction as a numerator and a denominator.
    pub open spec fn as_frac(self) -> (int, int) {
        (self.numerator as int, self.denominator as int)
    }
}

/// The sum of two fractions, over the product of their denominators.
pub open spec fn frac_add(a: (int, int), b: (int, int)) -> (int, int) {
    (a.0 * b.1 + b.0 * a.1, a.1 * b.1)
}

/// Fraction `a` is strictly greater than fraction `b` (both denominators positive).
pub open spec fn exceeds(a: (int, int), b: (int, int)) -> bool {
    a.0 * b.1 > b.0 * a.1
}

/// The number of weeks a team has played: its wins plus its losses.
pub open spec fn weeks_played(r: Record) -> int {
    r.overall_wins + r.overall_losses
}

/// The stage multiplier in fifths: 1.2 after one week, 2.4 after two, 3.0 otherwise.
pub open spec fn stage_fifths(weeks: int) -> int {
    if weeks == 1 {
        6
    } else if weeks == 2 {
        12
    } else {
        15
    }
}

/// The win percentage times the stage multiplier.
pub open spec fn win_percentage_weight(r: Record) -> (int, int) {
    (r.overall_percentage * stage_fifths(weeks_played(r)), WIN_PERCENTAGE_DENOMINATOR as int)
}

/// The team's points divided by the league leader's.
pub open spec fn points_for_weight(r: Record, max_points_for: int) -> (int, int) {
    (r.points_for as int, max_points_for)
}

/// `0 + 1 + ... + n`.
pub open spec fn sum_upto(n: int) -> int
    decreases n,
{
    if n <= 0 {
        0
    } else {
        sum_upto(n - 1) + n
    }
}

/// The all-play wins a team could have earned: each week, every pair of the
/// pool counted once.
pub open spec fn possible_total_wins(weeks: int) -> int {
    weeks * (sum_upto(ALL_PLAY_POOL as int) - ALL_PLAY_POOL)
}

/// The all-play wins divided by the possible ones; 0 before any week is played.
pub open spec fn total_wins_weight(r: Record, total_wins: int) -> (int, int) {
    let possible = possible_total_wins(weeks_played(r));
    if possible == 0 {
        (0, 1)
    } else {
        (total_wins, possible)
    }
}

/// The composite weight: win-percentage weight plus points-for weight, plus
/// the all-play win weight when an all-play count is given.
pub open spec fn overall_weight(r: Record, max_points_for: int, total_wins: Option<u32>) -> (
    int,
    int,
) {
    let base = frac_add(win_percentage_weight(r), points_for_weight(r, max_points_for));
    match total_wins {
        None => base,
        Some(w) => frac_add(base, total_wins_weight(r, w as int)),
    }
}

/// The factor by which a composite weight's denominator exceeds the
/// league-wide `WIN_PERCENTAGE_DENOMINATOR * max_points_for`.
pub open spec fn weight_scale(r: Record, total_wins: Option<u32>) -> int {
    match total_wins {
        None => 1,
        Some(_) => if possible_total_wins(weeks_played(r)) == 0 {
            1
        } else {
            possible_total_wins(weeks_played(r))
        },
    }
}

/// The pool of ten gives 45 possible all-play wins a week.
proof fn lemma_pool_pairs()
    ensures
        sum_upto(ALL_PLAY_POOL as int) - ALL_PLAY_POOL == 45,
{
    reveal_with_fuel(sum_upto, 11);
}

/// The shape and size of a composite weight.
pub proof fn lemma_weight_bounds(r: Record, max_points_for: int, total_wins: Option<u32>)
    requires
        0 < max_points_for <= u32::MAX,
    ensures
        0 <= overall_weight(r, max_points_for, total_wins).0 < 0x100_0000_0000_0000_0000_0000,
        overall_weight(r, max_points_for, total_wins).1 == WIN_PERCENTAGE_DENOMINATOR
            * max_points_for * weight_scale(r, total_wins),
        1 <= weight_scale(r, total_wins) <= 510 * 45,
{
    lemma_pool_pairs();
    let wp = win_percentage_weight(r);
    let pf = points_for_weight(r, max_points_for);
    let base = frac_add(wp, pf);
    assert(0 <= wp.0 <= 0xffff_ffff * 15);
    assert(0 <= wp.0 * pf.1 <= 0xffff_ffff * 15 * 0xffff_ffff) by (nonlinear_arith)
        requires
            0 <= wp.0 <= 0xffff_ffff * 15,
            0 < pf.1 <= 0xffff_ffff,
    ;
    assert(0 <= base.0 < 0x10_0000_0000_0000_0000);
    assert(base.1 == WIN_PERCENTAGE_DENOMINATOR * max_points_for);
    let weeks = weeks_played(r);
    assert(0 <= weeks <= 510);
    assert(possible_total_wins(weeks) == weeks * 45);
    match total_wins {
        None => {},
        Some(w) => {
            let tw = total_wins_weight(r, w as int);
            assert(0 <= tw.0 <= 0xffff_ffff);
            assert(1 <= tw.1 <= 510 * 45);
            assert(0 <= base.0 * tw.1 <= 0x10_0000_0000_0000_0000 * (510 * 45)) by (nonlinear_arith)
                requires
                    0 <= base.0 < 0x10_0000_0000_0000_0000,
                    1 <= tw.1 <= 510 * 45,
            ;
            assert(0 <= tw.0 * base.1 <= 0xffff_ffff * (WIN_PERCENTAGE_DENOMINATOR * 0xffff_ffff))
                by (nonlinear_arith)
                requires
                    0 <= tw.0 <= 0xffff_ffff,
                    0 < base.1 <= WIN_PERCENTAGE_DENOMINATOR * 0xffff_ffff,
            ;
        },
    }
}

impl Team {
    /// Wins plus losses.
    pub fn get_weeks_played(&self) -> (r: u16)
        ensures
            r == weeks_played(self.record),
    {
        self.record.overall_losses as u16 + self.record.overall_wins as u16
    }

    /// The win percentage times the stage multiplier of the weeks played.
    pub fn calculate_win_percentage_weight(&self) -> (r: Weight)
        ensures
            r.as_frac() == win_percentage_weight(self.record),
    {
        let weeks_played = self.get_weeks_played();
        let fifths: u128 = if weeks_played == 1 {
            6
        } else if weeks_played == 2 {
            12
        } else {
            15
        };
        Weight {
            numerator: self.record.overall_percentage as u128 * fifths,
            denominator: WIN_PERCENTAGE_DENOMINATOR,
        }
    }

    /// The team's points divided by the league leader's; an error when the
    /// leader has none.
    pub fn calculate_points_for_weight(&self, max_points_for: u32) -> (r: Result<
        Weight,
        RankingError,
    >)
        ensures
            match r {
                Ok(w) => max_points_for > 0 && w.as_frac() == points_for_weight(
                    self.record,
                    max_points_for as int,
                ),
                Err(e) => max_points_for == 0 && e == RankingError::NoScoringData,
            },
    {
        if max_points_for == 0 {
            Err(RankingError::NoScoringData)
        } else {
            Ok(
                Weight {
                    numerator: self.record.points_for as u128,
                    denominator: max_points_for as u128,
                },
            )
        }
    }

    /// The all-play wins possible over the weeks played, for a pool of ten.
    pub fn calculate_possible_total_wins(&self) -> (r: u32)
        ensures
            r == possible_total_wins(weeks_played(self.record)),
    {
        let weeks_played = self.get_weeks_played() as u32;
        let mut team_sum: u32 = 0;
        let mut i: u32 = 0;
        while i <= ALL_PLAY_POOL
            invariant
                i <= ALL_PLAY_POOL + 1,
                team_sum == sum_upto(i - 1),
                team_sum <= i * ALL_PLAY_POOL,
            decreases ALL_PLAY_POOL + 1 - i,
        {
            team_sum = team_sum + i;
            i = i + 1;
        }
        proof {
            lemma_pool_pairs();
            assert(team_sum == 55);
            assert(team_sum * weeks_played - ALL_PLAY_POOL * weeks_played == weeks_played * 45
                <= 510 * 45) by (nonlinear_arith)
                requires
                    team_sum == 55,
                    ALL_PLAY_POOL == 10,
                    weeks_played <= 510,
            ;
        }
        team_sum * weeks_played - ALL_PLAY_POOL * weeks_played
    }

    /// The all-play wins divided by the possible ones; 0 before any week is played.
    pub fn calculate_total_wins_weight(&self, total_wins: u32) -> (r: Weight)
        ensures
            r.as_frac() == total_wins_weight(self.record, total_wins as int),
    {
        let possible_total_wins = self.calculate_possible_total_wins();
        if possible_total_wins == 0 {
            Weight { numerator: 0, denominator: 1 }
        } else {
            Weight { numerator: total_wins as u128, denominator: possible_total_wins as u128 }
        }
    }

    /// The composite weight of the team; with `total_wins` the all-play win
    /// weight is part of it. An error when the league leader has no points.
    pub fn calculate_overall_weight(&self, max_points_for: u32, total_wins: Option<u32>) -> (r:
        Result<Weight, RankingError>)
        ensures
            match r {
                Ok(w) => max_points_for > 0 && w.as_frac() == overall_weight(
                    self.record,
                    max_points_for as int,
                    total_wins,
                ),
                Err(e) => max_points_for == 0 && e == RankingError::NoScoringData,
            },
    {
        let win_percentage = self.calculate_win_percentage_weight();
        let points_for_percentage = match self.calculate_points_for_weight(max_points_for) {
            Ok(w) => w,
            Err(e) => {
                return Err(e);
            },
        };
        proof {
            lemma_weight_bounds(self.record, max_points_for as int, total_wins);
            lemma_weight_bounds(self.record, max_points_for as int, None);
        }
        let base = Weight {
            numerator: win_percentage.numerator * points_for_percentage.denominator
                + points_for_percentage.numerator * win_percentage.denominator,
            denominator: win_percentage.denominator * points_for_percentage.denominator,
        };
        match total_wins {
            None => Ok(base),
            Some(wins) => {
                let total_wins_percentage = self.calculate_total_wins_weight(wins);
                assert(total_wins_percentage.denominator == weight_scale(self.record, total_wins));
                assert(base.denominator * total_wins_percentage.denominator <= WIN_PERCENTAGE_DENOMINATOR
                    * 0xffff_ffff * (510 * 45)) by (nonlinear_arith)
                    requires
                        base.denominator <= WIN_PERCENTAGE_DENOMINATOR * 0xffff_ffff,
                        total_wins_percentage.denominator <= 510 * 45,
                ;
                Ok(
                    Weight {
                        numerator: base.numerator * total_wins_percentage.denominator
                            + total_wins_percentage.numerator * base.denominator,
                        denominator: base.denominator * total_wins_percentage.denominator,
                    },
                )
            },
        }
    }
}

} // verus!
