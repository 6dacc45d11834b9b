//! Schedule history and the all-play win count derived from it.
//!
//! In every week each team that played is compared with every other team that
//! played that week: it earns one all-play win for each of them it outscored.
//! Two equal scores are ordered as they appear in the week, the earlier one
//! ranking higher, which is the order a stable descending sort leaves them in.

use std::collections::HashMap;
use vstd::prelude::*;

verus! {

broadcast use vstd::std_specs::hash::group_hash_axioms;

/// The largest number of weeks a schedule may hold, so that counts fit a `u32`.
pub const MAX_WEEKS: usize = 256;

/// The largest number of matchups a week may hold, so that counts fit a `u32`.
pub const MAX_MATCHUPS_PER_WEEK: usize = 256;

/// One team's score in one week, in thousandths of a point.
#[derive(Clone, Copy, Debug, PartialEq, Eq, Structural)]
pub struct Score {
    pub team_id: u8,
    pub score: i64,
}

/// A head-to-head game of one week.
///
/// Each side has a list of per-period scores; only the first one, the current
/// accumulated score, is read. An `outcome` of 0 means the game is not decided.
pub struct Matchup {
    pub away_team_id: u8,
    pub home_team_id: u8,
    pub away_team_scores: Vec<i64>,
    pub home_team_scores: Vec<i64>,
    pub outcome: u8,
}

impl Matchup {
    /// A decided game contributes both sides' scores to its week.
    pub open spec fn contributes(&self) -> bool {
        self.outcome != 0
    }

    /// A decided game has a score on each side.
    pub open spec fn well_formed(&self) -> bool {
        self.contributes() ==> (self.away_team_scores@.len() > 0
            && self.home_team_scores@.len() > 0)
    }

    /// The away side's and the home side's current scores.
    pub open spec fn spec_scores(&self) -> Seq<Score> {
        seq![
            Score { team_id: self.away_team_id, score: self.away_team_scores@[0] },
            Score { team_id: self.home_team_id, score: self.home_team_scores@[0] },
        ]
    }

    /// The two scores of this game, away side first.
    pub fn get_matchup_scores(&self) -> (r: Vec<Score>)
        requires
            self.away_team_scores@.len() > 0,
            self.home_team_scores@.len() > 0,
        ensures
            r@ == self.spec_scores(),
    {
        let mut r: Vec<Score> = Vec::new();
        r.push(Score { team_id: self.away_team_id, score: self.away_team_scores[0] });
        r.push(Score { team_id: self.home_team_id, score: self.home_team_scores[0] });
        r
    }
}

/// Every game of the sequence is well formed.
pub open spec fn matchups_well_formed(ms: Seq<Matchup>) -> bool {
    forall|i: int| 0 <= i < ms.len() ==> #[trigger] ms[i].well_formed()
}

/// The scores of a week: both sides of each decided game, in game order.
pub open spec fn week_scores(ms: Seq<Matchup>) -> Seq<Score>
    decreases ms.len(),
{
    if ms.len() == 0 {
        seq![]
    } else if ms.last().contributes() {
        week_scores(ms.drop_last()) + ms.last().spec_scores()
    } else {
        week_scores(ms.drop_last())
    }
}

/// The number of decided games.
pub open spec fn decided_count(ms: Seq<Matchup>) -> nat
    decreases ms.len(),
{
    if ms.len() == 0 {
        0
    } else {
        decided_count(ms.drop_last()) + if ms.last().contributes() { 1nat } else { 0nat }
    }
}

/// Entry `j` of a week ranks above entry `k`: a higher score, or an equal
/// score that appears earlier.
pub open spec fn beats(s: Seq<Score>, j: int, k: int) -> bool {
    s[k].score < s[j].score || (s[k].score == s[j].score && j < k)
}

/// How many of the first `m` entries of a week entry `j` ranks above.
pub open spec fn wins_among(s: Seq<Score>, j: int, m: int) -> nat
    decreases m,
{
    if m <= 0 {
        0
    } else {
        wins_among(s, j, m - 1) + if beats(s, j, m - 1) { 1nat } else { 0nat }
    }
}

/// The all-play wins of entry `j` in its week.
pub open spec fn week_wins(s: Seq<Score>, j: int) -> nat {
    wins_among(s, j, s.len() as int)
}

/// The all-play wins of team `t` over the first `m` entries of a week.
pub open spec fn team_week_wins(s: Seq<Score>, t: u8, m: int) -> nat
    decreases m,
{
    if m <= 0 {
        0
    } else {
        team_week_wins(s, t, m - 1) + if s[m - 1].team_id == t {
            week_wins(s, m - 1)
        } else {
            0nat
        }
    }
}

/// Team `t` has an entry among the first `m` entries of a week.
pub open spec fn appears_upto(s: Seq<Score>, t: u8, m: int) -> bool
    decreases m,
{
    if m <= 0 {
        false
    } else {
        appears_upto(s, t, m - 1) || s[m - 1].team_id == t
    }
}

/// The scores of each week of a season.
pub open spec fn season_scores(weeks: Seq<Week>) -> Seq<Seq<Score>> {
    weeks.map_values(|w: Week| week_scores(w.matchups@))
}

/// The all-play wins of team `t` summed over the weeks of a season.
pub open spec fn all_play_wins(season: Seq<Seq<Score>>, t: u8) -> nat
    decreases season.len(),
{
    if season.len() == 0 {
        0
    } else {
        all_play_wins(season.drop_last(), t) + team_week_wins(
            season.last(),
            t,
            season.last().len() as int,
        )
    }
}

/// Team `t` has a score in some week of the season.
pub open spec fn plays_in(season: Seq<Seq<Score>>, t: u8) -> bool
    decreases season.len(),
{
    if season.len() == 0 {
        false
    } else {
        plays_in(season.drop_last(), t) || appears_upto(
            season.last(),
            t,
            season.last().len() as int,
        )
    }
}

/// How many of the first `m` entries of a week rank above entry `k`.
pub open spec fn losses_among(s: Seq<Score>, k: int, m: int) -> nat
    decreases m,
{
    if m <= 0 {
        0
    } else {
        losses_among(s, k, m - 1) + if beats(s, m - 1, k) { 1nat } else { 0nat }
    }
}

/// The wins of the first `m` entries of a week, each counted against the
/// first `n` entries.
pub open spec fn wins_total(s: Seq<Score>, m: int, n: int) -> nat
    decreases m,
{
    if m <= 0 {
        0
    } else {
        wins_total(s, m - 1, n) + wins_among(s, m - 1, n)
    }
}

/// Of two distinct entries exactly one ranks above the other, so entry `n`
/// meets each of the `m` entries before it once, as a win or as a loss.
proof fn lemma_wins_and_losses(s: Seq<Score>, n: int, m: int)
    requires
        0 <= m <= n,
    ensures
        wins_among(s, n, m) + losses_among(s, n, m) == m,
    decreases m,
{
    if m > 0 {
        lemma_wins_and_losses(s, n, m - 1);
    }
}

/// Counting against one more entry adds the entries that rank above it.
proof fn lemma_wins_total_extend(s: Seq<Score>, m: int, n: int)
    requires
        0 <= m,
        0 <= n,
    ensures
        wins_total(s, m, n + 1) == wins_total(s, m, n) + losses_among(s, n, m),
    decreases m,
{
    if m > 0 {
        lemma_wins_total_extend(s, m - 1, n);
    }
}

/// Among `n` entries every pair yields exactly one win.
proof fn lemma_wins_total_pairs(s: Seq<Score>, n: int)
    requires
        0 <= n,
    ensures
        2 * wins_total(s, n, n) == n * (n - 1),
    decreases n,
{
    if n > 0 {
        let k = n - 1;
        lemma_wins_total_pairs(s, k);
        lemma_wins_total_extend(s, k, k);
        lemma_wins_and_losses(s, k, k);
        assert(wins_among(s, k, n) == wins_among(s, k, k));
        assert(wins_total(s, n, n) == wins_total(s, k, n) + wins_among(s, k, n));
        assert(wins_total(s, k, k + 1) == wins_total(s, k, k) + losses_among(s, k, k));
        assert(n * (n - 1) == k * (k - 1) + 2 * k) by (nonlinear_arith)
            requires
                k == n - 1,
        ;
        assert(wins_total(s, n, n) == wins_total(s, k, k) + k);
    } else {
        assert(n * (n - 1) == 0) by (nonlinear_arith)
            requires
                n == 0,
        ;
    }
}

/// The all-play wins awarded in one week: with `n` scores, every one of the
/// `n * (n - 1) / 2` pairs of teams yields exactly one win, whatever the
/// scores, and `n` is twice the number of decided games.
pub proof fn lemma_week_wins_total(ms: Seq<Matchup>)
    ensures
        week_scores(ms).len() == 2 * decided_count(ms),
        2 * wins_total(week_scores(ms), week_scores(ms).len() as int, week_scores(ms).len() as int)
            == week_scores(ms).len() * (week_scores(ms).len() - 1),
{
    lemma_week_scores_len(ms);
    lemma_wins_total_pairs(week_scores(ms), week_scores(ms).len() as int);
}

/// The scores of a sequence of games are those of its two parts, joined.
proof fn lemma_week_scores_concat(a: Seq<Matchup>, b: Seq<Matchup>)
    ensures
        week_scores(a + b) == week_scores(a) + week_scores(b),
    decreases b.len(),
{
    if b.len() == 0 {
        assert(a + b =~= a);
        assert(week_scores(a) + week_scores(b) =~= week_scores(a));
    } else {
        lemma_week_scores_concat(a, b.drop_last());
        assert((a + b).drop_last() =~= a + b.drop_last());
        assert((a + b).last() == b.last());
        if b.last().contributes() {
            assert(week_scores(a) + (week_scores(b.drop_last()) + b.last().spec_scores())
                =~= (week_scores(a) + week_scores(b.drop_last())) + b.last().spec_scores());
        }
    }
}

/// An undecided game contributes no score, and so no all-play win, whatever
/// its scores: the week's scores are those of the week without it.
pub proof fn lemma_undecided_matchup_ignored(a: Seq<Matchup>, x: Matchup, b: Seq<Matchup>)
    requires
        x.outcome == 0,
    ensures
        week_scores(a + seq![x] + b) == week_scores(a + b),
{
    lemma_week_scores_concat(a + seq![x], b);
    lemma_week_scores_concat(a, seq![x]);
    lemma_week_scores_concat(a, b);
    assert(seq![x].drop_last() =~= Seq::<Matchup>::empty());
    assert(seq![x].last() == x);
    assert(week_scores(Seq::<Matchup>::empty()) =~= Seq::<Score>::empty());
    assert(week_scores(seq![x]) =~= Seq::<Score>::empty());
    assert(week_scores(a) + week_scores(seq![x]) =~= week_scores(a));
}

/// One scheduling period: its games in order.
pub struct Week {
    pub matchups: Vec<Matchup>,
}

impl Week {
    /// Both scores of each decided game of the week, in game order.
    pub fn get_week_scores(&self) -> (r: Vec<Score>)
        requires
            matchups_well_formed(self.matchups@),
        ensures
            r@ == week_scores(self.matchups@),
    {
        let mut scores: Vec<Score> = Vec::new();
        let mut i: usize = 0;
        while i < self.matchups.len()
            invariant
                i <= self.matchups@.len(),
                matchups_well_formed(self.matchups@),
                scores@ == week_scores(self.matchups@.subrange(0, i as int)),
            decreases self.matchups@.len() - i,
        {
            let matchup = &self.matchups[i];
            assert(self.matchups@[i as int].well_formed());
            if matchup.outcome != 0 {
                let mut both = matchup.get_matchup_scores();
                scores.append(&mut both);
            }
            assert(self.matchups@.subrange(0, i + 1).drop_last() =~= self.matchups@.subrange(
                0,
                i as int,
            ));
            i += 1;
        }
        assert(self.matchups@.subrange(0, i as int) =~= self.matchups@);
        scores
    }
}

/// The weeks of a season, in order.
pub struct Schedule {
    pub schedule_items: Vec<Week>,
}

/// The number of scores in a week is twice its number of decided games.
pub proof fn lemma_week_scores_len(ms: Seq<Matchup>)
    ensures
        week_scores(ms).len() == 2 * decided_count(ms),
        decided_count(ms) <= ms.len(),
    decreases ms.len(),
{
    if ms.len() > 0 {
        lemma_week_scores_len(ms.drop_last());
    }
}

/// How many entries of a week entry `j` ranks above.
fn count_wins(scores: &Vec<Score>, j: usize) -> (r: u32)
    requires
        j < scores@.len(),
        scores@.len() <= 2 * MAX_MATCHUPS_PER_WEEK,
    ensures
        r == week_wins(scores@, j as int),
        r <= scores@.len(),
{
    let mut count: u32 = 0;
    let mut k: usize = 0;
    while k < scores.len()
        invariant
            j < scores@.len() <= 2 * MAX_MATCHUPS_PER_WEEK,
            k <= scores@.len(),
            count == wins_among(scores@, j as int, k as int),
            count <= k,
        decreases scores@.len() - k,
    {
        if scores[k].score < scores[j].score || (scores[k].score == scores[j].score && j < k) {
            count += 1;
        }
        k += 1;
    }
    count
}

/// A team with no entry in the first `m` entries of a week has no wins there.
proof fn lemma_absent_no_week_wins(s: Seq<Score>, t: u8, m: int)
    requires
        !appears_upto(s, t, m),
    ensures
        team_week_wins(s, t, m) == 0,
    decreases m,
{
    if m > 0 {
        lemma_absent_no_week_wins(s, t, m - 1);
    }
}

/// A team that plays in no week of a season has no all-play wins.
proof fn lemma_absent_no_wins(season: Seq<Seq<Score>>, t: u8)
    requires
        !plays_in(season, t),
    ensures
        all_play_wins(season, t) == 0,
    decreases season.len(),
{
    if season.len() > 0 {
        lemma_absent_no_wins(season.drop_last(), t);
        lemma_absent_no_week_wins(season.last(), t, season.last().len() as int);
    }
}

impl Schedule {
    /// Each week holds well-formed games, and the sizes keep counts in a `u32`.
    pub open spec fn well_formed(&self) -> bool {
        &&& self.schedule_items@.len() <= MAX_WEEKS
        &&& forall|w: int|
            0 <= w < self.schedule_items@.len() ==> {
                &&& #[trigger] self.schedule_items@[w].matchups@.len() <= MAX_MATCHUPS_PER_WEEK
                &&& matchups_well_formed(self.schedule_items@[w].matchups@)
            }
    }

    /// The scores of each week of this schedule.
    pub open spec fn season(&self) -> Seq<Seq<Score>> {
        season_scores(self.schedule_items@)
    }

    /// The all-play win count of every team that has a score in some week.
    pub fn calculate_overall_wins(&self) -> (r: HashMap<u8, u32>)
        requires
            self.well_formed(),
        ensures
            forall|t: u8| #[trigger] r@.contains_key(t) <==> plays_in(self.season(), t),
            forall|t: u8|
                #[trigger] r@.contains_key(t) ==> r@[t] == all_play_wins(self.season(), t),
    {
        let ghost season = self.season();
        let mut totals: HashMap<u8, u32> = HashMap::new();
        let mut w: usize = 0;
        while w < self.schedule_items.len()
            invariant
                self.well_formed(),
                season == self.season(),
                w <= self.schedule_items@.len(),
                forall|t: u8|
                    #[trigger] totals@.contains_key(t) <==> plays_in(
                        season.subrange(0, w as int),
                        t,
                    ),
                forall|t: u8|
                    #[trigger] totals@.contains_key(t) ==> totals@[t] == all_play_wins(
                        season.subrange(0, w as int),
                        t,
                    ),
                forall|t: u8| #[trigger] totals@.contains_key(t) ==> totals@[t] <= w * 262144,
            decreases self.schedule_items@.len() - w,
        {
            let week = &self.schedule_items[w];
            assert(week.matchups@.len() <= MAX_MATCHUPS_PER_WEEK);
            let scores = week.get_week_scores();
            proof {
                lemma_week_scores_len(week.matchups@);
            }
            let ghost prefix = season.subrange(0, w as int);
            assert(scores@ == season[w as int]);
            let mut j: usize = 0;
            while j < scores.len()
                invariant
                    w < self.schedule_items@.len() <= MAX_WEEKS,
                    scores@.len() <= 2 * MAX_MATCHUPS_PER_WEEK,
                    j <= scores@.len(),
                    forall|t: u8|
                        #[trigger] totals@.contains_key(t) <==> (plays_in(prefix, t)
                            || appears_upto(scores@, t, j as int)),
                    forall|t: u8|
                        #[trigger] totals@.contains_key(t) ==> totals@[t] == all_play_wins(
                            prefix,
                            t,
                        ) + team_week_wins(scores@, t, j as int),
                    forall|t: u8|
                        #[trigger] totals@.contains_key(t) ==> totals@[t] <= w * 262144 + j
                            * 512,
                decreases scores@.len() - j,
            {
                let wins = count_wins(&scores, j);
                let team = scores[j].team_id;
                let current: u32 = match totals.get(&team) {
                    Some(v) => *v,
                    None => 0,
                };
                proof {
                    if !totals@.contains_key(team) {
                        lemma_absent_no_wins(prefix, team);
                        lemma_absent_no_week_wins(scores@, team, j as int);
                    }
                }
                totals.insert(team, current + wins);
                assert forall|t: u8| #[trigger] totals@.contains_key(t) implies totals@[t]
                    == all_play_wins(prefix, t) + team_week_wins(scores@, t, j + 1) by {
                    if t != team {
                        assert(team_week_wins(scores@, t, j + 1) == team_week_wins(
                            scores@,
                            t,
                            j as int,
                        ));
                    }
                }
                assert forall|t: u8| #[trigger] totals@.contains_key(t) <==> (plays_in(prefix, t)
                    || appears_upto(scores@, t, j + 1)) by {
                    assert(appears_upto(scores@, t, j + 1) == (appears_upto(
                        scores@,
                        t,
                        j as int,
                    ) || scores@[j as int].team_id == t));
                }
                j += 1;
            }
            assert(season.subrange(0, w + 1).drop_last() =~= prefix);
            assert(season.subrange(0, w + 1).last() == scores@);
            w += 1;
        }
        assert(season.subrange(0, w as int) =~= season);
        totals
    }
}

} // verus!
