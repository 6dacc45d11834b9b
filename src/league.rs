//! The league snapshot and its power ranking.

use crate::endpoints::default_int;
use crate::weights::{
    exceeds, lemma_weight_bounds, overall_weight, points_for_weight, weight_scale, RankingError, Team, Weight,
    WIN_PERCENTAGE_DENOMINATOR,
};
use std::cmp::Ordering;
use std::collections::HashMap;
use vstd::prelude::*;

verus! {

broadcast use vstd::std_specs::hash::group_hash_axioms;

/// The teams of a league and how many there are.
pub struct League {
    pub teams: Vec<Team>,
    pub league_size: usize,
}

/// One place of a ranking: the team's position in the league's list and its
/// composite weight.
#[derive(Clone, Copy, Debug, PartialEq, Eq, Structural)]
pub struct RankedTeam {
    pub index: usize,
    pub weight: Weight,
}

/// The most points any team has scored, or 0 for a league where none has.
pub open spec fn max_points_for(teams: Seq<Team>) -> int
    decreases teams.len(),
{
    if teams.len() == 0 {
        0
    } else {
        let rest = max_points_for(teams.drop_last());
        let last = teams.last().record.points_for as int;
        if last > rest {
            last
        } else {
            rest
        }
    }
}

/// The all-play count a ranking uses for a team: its entry, or 0 without one.
pub open spec fn all_play_lookup(all_play: Option<Map<u8, u32>>, team_id: u8) -> Option<u32> {
    match all_play {
        None => None,
        Some(m) => Some(
            if m.contains_key(team_id) {
                m[team_id]
            } else {
                0
            },
        ),
    }
}

/// The composite weight of every team, in league order.
pub open spec fn team_weights(teams: Seq<Team>, all_play: Option<Map<u8, u32>>) -> Seq<(int, int)> {
    teams.map_values(
        |t: Team|
            overall_weight(
                t.record,
                max_points_for(teams),
                all_play_lookup(all_play, t.team_id),
            ),
    )
}

/// Places team `i` into a ranking: before the first team it strictly
/// outweighs, so that teams of equal weight keep their league order.
pub open spec fn insert_ranked(ws: Seq<(int, int)>, order: Seq<usize>, i: usize) -> Seq<usize>
    decreases order.len(),
{
    if order.len() == 0 {
        seq![i]
    } else if exceeds(ws[i as int], ws[order[0] as int]) {
        seq![i] + order
    } else {
        seq![order[0]] + insert_ranked(ws, order.drop_first(), i)
    }
}

/// The ranking of the first `n` teams: heaviest first, equal weights in league order.
pub open spec fn ranked_order(ws: Seq<(int, int)>, n: nat) -> Seq<usize>
    decreases n,
{
    if n == 0 {
        seq![]
    } else {
        insert_ranked(ws, ranked_order(ws, (n - 1) as nat), (n - 1) as usize)
    }
}

/// What ranking the teams gives: an error when no team has scored, else
/// every team once, heaviest first, each with its composite weight.
pub open spec fn rank_outcome(
    teams: Seq<Team>,
    all_play: Option<Map<u8, u32>>,
    r: Result<Seq<RankedTeam>, RankingError>,
) -> bool {
    let ws = team_weights(teams, all_play);
    let order = ranked_order(ws, teams.len());
    match r {
        Err(e) => max_points_for(teams) == 0 && e == RankingError::NoScoringData,
        Ok(v) => {
            &&& max_points_for(teams) > 0
            &&& v.len() == teams.len()
            &&& forall|p: int|
                0 <= p < v.len() ==> {
                    &&& #[trigger] v[p].index == order[p]
                    &&& v[p].weight.as_frac() == ws[v[p].index as int]
                }
        },
    }
}

/// The map a ranking is given, as a value.
pub open spec fn all_play_view(all_play: Option<&HashMap<u8, u32>>) -> Option<Map<u8, u32>> {
    match all_play {
        None => None,
        Some(m) => Some(m@),
    }
}

/// The result of a ranking, as a value.
pub open spec fn ranking_view(r: Result<Vec<RankedTeam>, RankingError>) -> Result<
    Seq<RankedTeam>,
    RankingError,
> {
    match r {
        Ok(v) => Ok(v@),
        Err(e) => Err(e),
    }
}

/// A composite weight together with the factor by which its denominator
/// exceeds `WIN_PERCENTAGE_DENOMINATOR * max_points_for`.
fn scaled_weight(team: &Team, max_points_for: u32, total_wins: Option<u32>) -> (r: (Weight, u128))
    requires
        max_points_for > 0,
    ensures
        r.0.as_frac() == overall_weight(team.record, max_points_for as int, total_wins),
        r.1 == weight_scale(team.record, total_wins),
        r.0.numerator < 0x100_0000_0000_0000_0000_0000,
        r.0.denominator == WIN_PERCENTAGE_DENOMINATOR * max_points_for * r.1,
        1 <= r.1 <= 510 * 45,
{
    proof {
        lemma_weight_bounds(team.record, max_points_for as int, total_wins);
    }
    let weight = match team.calculate_overall_weight(max_points_for, total_wins) {
        Ok(w) => w,
        // The leader has points, so the weight is always computed.
        Err(_) => Weight { numerator: 0, denominator: 1 },
    };
    let scale: u128 = match total_wins {
        None => 1,
        Some(_) => {
            let possible = team.calculate_possible_total_wins();
            if possible == 0 {
                1
            } else {
                possible as u128
            }
        },
    };
    (weight, scale)
}

/// Comparing two weights over a shared league factor compares their numerators
/// against each other's scale.
proof fn lemma_exceeds_scaled(a: (int, int), sa: int, b: (int, int), sb: int, d: int)
    requires
        d > 0,
        a.1 == d * sa,
        b.1 == d * sb,
    ensures
        exceeds(a, b) == (a.0 * sb > b.0 * sa),
{
    assert(a.0 * b.1 == d * (a.0 * sb)) by (nonlinear_arith)
        requires
            b.1 == d * sb,
    ;
    assert(b.0 * a.1 == d * (b.0 * sa)) by (nonlinear_arith)
        requires
            a.1 == d * sa,
    ;
    assert((d * (a.0 * sb) > d * (b.0 * sa)) == (a.0 * sb > b.0 * sa)) by (nonlinear_arith)
        requires
            d > 0,
    ;
}

/// Weight `a` strictly exceeds weight `b`, both over the same league factor.
fn outweighs(a: Weight, scale_a: u128, b: Weight, scale_b: u128, Ghost(d): Ghost<int>) -> (r: bool)
    requires
        d > 0,
        a.denominator == d * scale_a,
        b.denominator == d * scale_b,
        a.numerator < 0x100_0000_0000_0000_0000_0000,
        b.numerator < 0x100_0000_0000_0000_0000_0000,
        scale_a <= 510 * 45,
        scale_b <= 510 * 45,
    ensures
        r == exceeds(a.as_frac(), b.as_frac()),
{
    proof {
        lemma_exceeds_scaled(a.as_frac(), scale_a as int, b.as_frac(), scale_b as int, d);
        assert(a.numerator * scale_b <= 0x100_0000_0000_0000_0000_0000 * (510 * 45))
            by (nonlinear_arith)
            requires
                a.numerator < 0x100_0000_0000_0000_0000_0000,
                scale_b <= 510 * 45,
        ;
        assert(b.numerator * scale_a <= 0x100_0000_0000_0000_0000_0000 * (510 * 45))
            by (nonlinear_arith)
            requires
                b.numerator < 0x100_0000_0000_0000_0000_0000,
                scale_a <= 510 * 45,
        ;
    }
    a.numerator * scale_b > b.numerator * scale_a
}

/// Inserting team `i` before the first team it outweighs is `insert_ranked`.
proof fn lemma_insert_ranked_at(ws: Seq<(int, int)>, order: Seq<usize>, i: usize, k: int)
    requires
        0 <= k <= order.len(),
        forall|p: int| 0 <= p < k ==> !exceeds(ws[i as int], #[trigger] ws[order[p] as int]),
        k < order.len() ==> exceeds(ws[i as int], ws[order[k] as int]),
    ensures
        insert_ranked(ws, order, i) == order.insert(k, i),
    decreases k,
{
    if k == 0 {
        if order.len() == 0 {
            assert(order.insert(k, i) =~= seq![i]);
        } else {
            assert(order.insert(k, i) =~= seq![i] + order);
        }
    } else {
        let rest = order.drop_first();
        assert(!exceeds(ws[i as int], ws[order[0] as int]));
        assert forall|p: int| 0 <= p < k - 1 implies !exceeds(
            ws[i as int],
            #[trigger] ws[rest[p] as int],
        ) by {
            assert(rest[p] == order[p + 1]);
        }
        if k - 1 < rest.len() {
            assert(rest[k - 1] == order[k]);
        }
        lemma_insert_ranked_at(ws, rest, i, k - 1);
        assert(order.insert(k, i) =~= seq![order[0]] + rest.insert(k - 1, i));
    }
}

/// Fraction `a` exceeds `c` when it exceeds `b` and `b` is at least `c`.
proof fn lemma_exceeds_transitive(a: (int, int), b: (int, int), c: (int, int))
    requires
        a.1 > 0,
        b.1 > 0,
        c.1 > 0,
        exceeds(a, b),
        !exceeds(c, b),
    ensures
        exceeds(a, c),
{
    assert(a.0 * b.1 * c.1 > b.0 * a.1 * c.1) by (nonlinear_arith)
        requires
            a.0 * b.1 > b.0 * a.1,
            c.1 > 0,
    ;
    assert(c.0 * b.1 * a.1 <= b.0 * c.1 * a.1) by (nonlinear_arith)
        requires
            c.0 * b.1 <= b.0 * c.1,
            a.1 > 0,
    ;
    assert((a.0 * c.1) * b.1 > (c.0 * a.1) * b.1) by (nonlinear_arith)
        requires
            a.0 * b.1 * c.1 > b.0 * a.1 * c.1,
            c.0 * b.1 * a.1 <= b.0 * c.1 * a.1,
    ;
    assert(a.0 * c.1 > c.0 * a.1) by (nonlinear_arith)
        requires
            (a.0 * c.1) * b.1 > (c.0 * a.1) * b.1,
            b.1 > 0,
    ;
}

/// No team of a ranking outweighs a team placed before it.
pub open spec fn ranked_sorted(ws: Seq<(int, int)>, order: Seq<usize>) -> bool {
    forall|p: int, q: int|
        0 <= p < q < order.len() ==> !exceeds(
            #[trigger] ws[order[q] as int],
            #[trigger] ws[order[p] as int],
        )
}

/// Every weight has a positive denominator.
pub open spec fn positive_denominators(ws: Seq<(int, int)>) -> bool {
    forall|j: int| 0 <= j < ws.len() ==> (#[trigger] ws[j]).1 > 0
}

/// Inserting a team keeps the other teams and adds that one.
proof fn lemma_insert_ranked_contents(ws: Seq<(int, int)>, order: Seq<usize>, i: usize)
    ensures
        insert_ranked(ws, order, i).len() == order.len() + 1,
        forall|p: int|
            0 <= p < order.len() + 1 ==> #[trigger] insert_ranked(ws, order, i)[p] == i
                || order.contains(insert_ranked(ws, order, i)[p]),
        insert_ranked(ws, order, i).contains(i),
        forall|x: usize| order.contains(x) ==> #[trigger] insert_ranked(ws, order, i).contains(x),
    decreases order.len(),
{
    let r = insert_ranked(ws, order, i);
    if order.len() == 0 {
        assert(r[0] == i);
    } else if exceeds(ws[i as int], ws[order[0] as int]) {
        assert(r[0] == i);
        assert forall|x: usize| order.contains(x) implies r.contains(x) by {
            let q = choose|q: int| 0 <= q < order.len() && order[q] == x;
            assert(r[q + 1] == x);
        }
        assert forall|p: int| 0 <= p < order.len() + 1 implies #[trigger] r[p] == i
            || order.contains(r[p]) by {
            if p > 0 {
                assert(r[p] == order[p - 1]);
            }
        }
    } else {
        let rest = order.drop_first();
        let sub = insert_ranked(ws, rest, i);
        lemma_insert_ranked_contents(ws, rest, i);
        assert(r == seq![order[0]] + sub);
        let k = choose|k: int| 0 <= k < sub.len() && sub[k] == i;
        assert(r[k + 1] == i);
        assert forall|x: usize| order.contains(x) implies r.contains(x) by {
            let q = choose|q: int| 0 <= q < order.len() && order[q] == x;
            if q == 0 {
                assert(r[0] == x);
            } else {
                assert(rest[q - 1] == x);
                assert(sub.contains(x));
                let m = choose|m: int| 0 <= m < sub.len() && sub[m] == x;
                assert(r[m + 1] == x);
            }
        }
        assert forall|p: int| 0 <= p < order.len() + 1 implies #[trigger] r[p] == i
            || order.contains(r[p]) by {
            if p == 0 {
                assert(order[0] == r[0]);
            } else {
                assert(r[p] == sub[p - 1]);
                if sub[p - 1] != i {
                    assert(rest.contains(sub[p - 1]));
                    let q = choose|q: int| 0 <= q < rest.len() && rest[q] == sub[p - 1];
                    assert(order[q + 1] == r[p]);
                }
            }
        }
    }
}

/// Inserting a team into a sorted ranking keeps it sorted.
proof fn lemma_insert_ranked_sorted(ws: Seq<(int, int)>, order: Seq<usize>, i: usize)
    requires
        positive_denominators(ws),
        i < ws.len(),
        forall|p: int| 0 <= p < order.len() ==> #[trigger] order[p] < ws.len(),
        ranked_sorted(ws, order),
    ensures
        ranked_sorted(ws, insert_ranked(ws, order, i)),
    decreases order.len(),
{
    let r = insert_ranked(ws, order, i);
    lemma_insert_ranked_contents(ws, order, i);
    if order.len() == 0 {
    } else if exceeds(ws[i as int], ws[order[0] as int]) {
        assert(r == seq![i] + order);
        assert forall|p: int, q: int| 0 <= p < q < r.len() implies !exceeds(
            #[trigger] ws[r[q] as int],
            #[trigger] ws[r[p] as int],
        ) by {
            if p == 0 {
                let o = order[q - 1];
                assert(r[q] == o);
                assert(ws[o as int].1 > 0);
                assert(ws[order[0] as int].1 > 0);
                assert(ws[i as int].1 > 0);
                if q - 1 > 0 {
                    assert(!exceeds(ws[order[q - 1] as int], ws[order[0] as int]));
                }
                lemma_exceeds_transitive(ws[i as int], ws[order[0] as int], ws[o as int]);
            } else {
                assert(r[p] == order[p - 1]);
                assert(r[q] == order[q - 1]);
            }
        }
    } else {
        let rest = order.drop_first();
        let sub = insert_ranked(ws, rest, i);
        assert forall|p: int, q: int| 0 <= p < q < rest.len() implies !exceeds(
            #[trigger] ws[rest[q] as int],
            #[trigger] ws[rest[p] as int],
        ) by {
            assert(rest[p] == order[p + 1]);
            assert(rest[q] == order[q + 1]);
        }
        assert forall|p: int| 0 <= p < rest.len() implies #[trigger] rest[p] < ws.len() by {
            assert(rest[p] == order[p + 1]);
        }
        lemma_insert_ranked_sorted(ws, rest, i);
        lemma_insert_ranked_contents(ws, rest, i);
        assert(r == seq![order[0]] + sub);
        assert forall|p: int, q: int| 0 <= p < q < r.len() implies !exceeds(
            #[trigger] ws[r[q] as int],
            #[trigger] ws[r[p] as int],
        ) by {
            assert(r[q] == sub[q - 1]);
            if p == 0 {
                if sub[q - 1] != i {
                    assert(rest.contains(sub[q - 1]));
                    let m = choose|m: int| 0 <= m < rest.len() && rest[m] == sub[q - 1];
                    assert(order[m + 1] == r[q]);
                }
            } else {
                assert(r[p] == sub[p - 1]);
            }
        }
    }
}

/// The ranking of `n` teams is sorted, names each team below `n`, and names
/// every one of them.
pub proof fn lemma_ranked_order_shape(ws: Seq<(int, int)>, n: nat)
    requires
        positive_denominators(ws),
        n <= ws.len(),
    ensures
        ranked_order(ws, n).len() == n,
        forall|p: int| 0 <= p < n ==> #[trigger] ranked_order(ws, n)[p] < n,
        forall|j: usize| j < n ==> #[trigger] ranked_order(ws, n).contains(j),
        ranked_sorted(ws, ranked_order(ws, n)),
    decreases n,
{
    if n > 0 {
        let m = (n - 1) as nat;
        let prev = ranked_order(ws, m);
        lemma_ranked_order_shape(ws, m);
        lemma_insert_ranked_contents(ws, prev, m as usize);
        lemma_insert_ranked_sorted(ws, prev, m as usize);
        let r = ranked_order(ws, n);
        assert forall|p: int| 0 <= p < n implies #[trigger] r[p] < n by {
            if r[p] != m as usize {
                let q = choose|q: int| 0 <= q < prev.len() && prev[q] == r[p];
            }
        }
        assert forall|j: usize| j < n implies #[trigger] r.contains(j) by {
            if j < m {
                assert(prev.contains(j));
            }
        }
    }
}

/// The weights of a league whose leader has scored all have positive denominators.
proof fn lemma_team_weights_positive(teams: Seq<Team>, all_play: Option<Map<u8, u32>>)
    requires
        max_points_for(teams) > 0,
    ensures
        positive_denominators(team_weights(teams, all_play)),
        team_weights(teams, all_play).len() == teams.len(),
{
    lemma_max_points_for_bounds(teams);
    let ws = team_weights(teams, all_play);
    assert forall|j: int| 0 <= j < ws.len() implies (#[trigger] ws[j]).1 > 0 by {
        let t = teams[j];
        lemma_weight_bounds(
            t.record,
            max_points_for(teams),
            all_play_lookup(all_play, t.team_id),
        );
        assert(WIN_PERCENTAGE_DENOMINATOR * max_points_for(teams) * weight_scale(
            t.record,
            all_play_lookup(all_play, t.team_id),
        ) > 0) by (nonlinear_arith)
            requires
                max_points_for(teams) > 0,
                weight_scale(t.record, all_play_lookup(all_play, t.team_id)) >= 1,
        ;
    }
}

/// No team has more points than the league maximum, which is 0 or some
/// team's points.
pub proof fn lemma_max_points_for_bounds(teams: Seq<Team>)
    ensures
        0 <= max_points_for(teams) <= u32::MAX,
        forall|i: int|
            0 <= i < teams.len() ==> (#[trigger] teams[i]).record.points_for <= max_points_for(
                teams,
            ),
        max_points_for(teams) == 0 || exists|i: int|
            0 <= i < teams.len() && (#[trigger] teams[i]).record.points_for == max_points_for(
                teams,
            ),
    decreases teams.len(),
{
    if teams.len() > 0 {
        let rest = teams.drop_last();
        lemma_max_points_for_bounds(rest);
        assert forall|i: int| 0 <= i < teams.len() implies (#[trigger] teams[i]).record.points_for
            <= max_points_for(teams) by {
            if i < rest.len() {
                assert(rest[i] == teams[i]);
            }
        }
        if max_points_for(teams) != 0 {
            if max_points_for(teams) == teams.last().record.points_for {
                assert(teams[teams.len() - 1] == teams.last());
            } else {
                let i = choose|i: int|
                    0 <= i < rest.len() && (#[trigger] rest[i]).record.points_for
                        == max_points_for(rest);
                assert(teams[i] == rest[i]);
            }
        }
    }
}

/// The team with the most points has a points-for weight of exactly one.
pub proof fn lemma_leader_points_weight_is_one(teams: Seq<Team>, i: int)
    requires
        0 <= i < teams.len(),
        teams[i].record.points_for == max_points_for(teams),
        max_points_for(teams) > 0,
    ensures
        points_for_weight(teams[i].record, max_points_for(teams)).0 == points_for_weight(
            teams[i].record,
            max_points_for(teams),
        ).1,
{
}

/// In a ranking, a team of strictly greater composite weight stands before a
/// team of smaller weight: if the team at place `p` outweighs the team at
/// place `q`, then `p < q`.
pub proof fn lemma_heavier_ranks_first(
    teams: Seq<Team>,
    all_play: Option<Map<u8, u32>>,
    p: int,
    q: int,
)
    requires
        max_points_for(teams) > 0,
        0 <= p < teams.len(),
        0 <= q < teams.len(),
        exceeds(
            team_weights(teams, all_play)[ranked_order(team_weights(teams, all_play), teams.len())[p] as int],
            team_weights(teams, all_play)[ranked_order(team_weights(teams, all_play), teams.len())[q] as int],
        ),
    ensures
        p < q,
{
    let ws = team_weights(teams, all_play);
    lemma_team_weights_positive(teams, all_play);
    lemma_ranked_order_shape(ws, teams.len());
    let order = ranked_order(ws, teams.len());
    if q < p {
        assert(!exceeds(ws[order[p] as int], ws[order[q] as int]));
    }
}

/// A ranking names every team of the league exactly once.
pub proof fn lemma_ranking_complete(teams: Seq<Team>, all_play: Option<Map<u8, u32>>)
    requires
        max_points_for(teams) > 0,
    ensures
        ranked_order(team_weights(teams, all_play), teams.len()).len() == teams.len(),
        forall|j: usize|
            j < teams.len() ==> #[trigger] ranked_order(
                team_weights(teams, all_play),
                teams.len(),
            ).contains(j),
        forall|p: int|
            0 <= p < teams.len() ==> #[trigger] ranked_order(
                team_weights(teams, all_play),
                teams.len(),
            )[p] < teams.len(),
{
    lemma_team_weights_positive(teams, all_play);
    lemma_ranked_order_shape(team_weights(teams, all_play), teams.len());
}

/// Ranking the same teams with the same all-play counts twice gives the same
/// order and the same weights.
pub proof fn lemma_ranking_deterministic(
    teams: Seq<Team>,
    all_play: Option<Map<u8, u32>>,
    r1: Result<Seq<RankedTeam>, RankingError>,
    r2: Result<Seq<RankedTeam>, RankingError>,
)
    requires
        rank_outcome(teams, all_play, r1),
        rank_outcome(teams, all_play, r2),
    ensures
        r1 == r2,
{
    match (r1, r2) {
        (Ok(v1), Ok(v2)) => {
            assert forall|p: int| 0 <= p < v1.len() implies v1[p] == v2[p] by {
                assert(v1[p].index == v2[p].index);
                assert(v1[p].weight.as_frac() == v2[p].weight.as_frac());
            }
            assert(v1 =~= v2);
        },
        _ => {},
    }
}

/// The all-play count a ranking uses for a team: its entry, or 0 without one.
fn all_play_count(all_play: Option<&HashMap<u8, u32>>, team_id: u8) -> (r: Option<u32>)
    ensures
        r == all_play_lookup(all_play_view(all_play), team_id),
{
    match all_play {
        None => None,
        Some(m) => Some(
            match m.get(&team_id) {
                Some(w) => *w,
                None => default_int(),
            },
        ),
    }
}

impl Team {
    /// How this team stands against `team`: `Less` when this team outweighs it
    /// and goes first, `Greater` when `team` outweighs this one, `Equal` when
    /// neither does. An error when the league leader has no points.
    pub fn compare(
        &self,
        team: &Team,
        max_points_for: u32,
        total_wins_map: Option<&HashMap<u8, u32>>,
    ) -> (r: Result<Ordering, RankingError>)
        ensures
            match r {
                Err(e) => max_points_for == 0 && e == RankingError::NoScoringData,
                Ok(o) => {
                    let a = overall_weight(
                        self.record,
                        max_points_for as int,
                        all_play_lookup(all_play_view(total_wins_map), self.team_id),
                    );
                    let b = overall_weight(
                        team.record,
                        max_points_for as int,
                        all_play_lookup(all_play_view(total_wins_map), team.team_id),
                    );
                    &&& max_points_for > 0
                    &&& (o == Ordering::Less) == exceeds(a, b)
                    &&& (o == Ordering::Greater) == exceeds(b, a)
                },
            },
    {
        if max_points_for == 0 {
            return Err(RankingError::NoScoringData);
        }
        let self_total_wins = all_play_count(total_wins_map, self.team_id);
        let team_total_wins = all_play_count(total_wins_map, team.team_id);
        let (self_weight, self_scale) = scaled_weight(self, max_points_for, self_total_wins);
        let (other_weight, other_scale) = scaled_weight(team, max_points_for, team_total_wins);
        let ghost d: int = WIN_PERCENTAGE_DENOMINATOR * max_points_for;
        if outweighs(self_weight, self_scale, other_weight, other_scale, Ghost(d)) {
            Ok(Ordering::Less)
        } else if outweighs(other_weight, other_scale, self_weight, self_scale, Ghost(d)) {
            Ok(Ordering::Greater)
        } else {
            Ok(Ordering::Equal)
        }
    }
}

impl League {
    /// Records the number of teams.
    pub fn set_league_size(&mut self)
        ensures
            final(self).teams@ == old(self).teams@,
            final(self).league_size == old(self).teams@.len(),
    {
        self.league_size = self.teams.len();
    }

    /// Gives each team its all-play win count, 0 for a team without an entry,
    /// and changes nothing else.
    pub fn attach_overall_wins(&mut self, all_play: &HashMap<u8, u32>)
        ensures
            final(self).league_size == old(self).league_size,
            final(self).teams@.len() == old(self).teams@.len(),
            forall|i: int|
                0 <= i < old(self).teams@.len() ==> {
                    let before = #[trigger] old(self).teams@[i];
                    let after = final(self).teams@[i];
                    &&& Some(after.overall_wins) == all_play_lookup(
                        Some(all_play@),
                        before.team_id,
                    )
                    &&& after.record == before.record
                    &&& after.team_id == before.team_id
                    &&& after.team_location == before.team_location
                    &&& after.team_nickname == before.team_nickname
                },
    {
        let ghost before = self.teams@;
        let mut i: usize = 0;
        while i < self.teams.len()
            invariant
                i <= self.teams@.len() == before.len(),
                self.league_size == old(self).league_size,
                before == old(self).teams@,
                forall|j: int|
                    0 <= j < before.len() ==> {
                        let b = #[trigger] before[j];
                        let a = self.teams@[j];
                        &&& j < i ==> Some(a.overall_wins) == all_play_lookup(
                            Some(all_play@),
                            b.team_id,
                        )
                        &&& j >= i ==> a.overall_wins == b.overall_wins
                        &&& a.record == b.record
                        &&& a.team_id == b.team_id
                        &&& a.team_location == b.team_location
                        &&& a.team_nickname == b.team_nickname
                    },
            decreases before.len() - i,
        {
            let wins = all_play_count(Some(all_play), self.teams[i].team_id);
            let count = match wins {
                Some(w) => w,
                None => default_int(),
            };
            self.teams[i].overall_wins = count;
            i += 1;
        }
    }

    /// The most points any team has scored, or 0 where none has.
    pub fn get_max_points_for(&self) -> (r: u32)
        ensures
            r == max_points_for(self.teams@),
    {
        let mut max: u32 = 0;
        let mut i: usize = 0;
        while i < self.teams.len()
            invariant
                i <= self.teams@.len(),
                max == max_points_for(self.teams@.subrange(0, i as int)),
            decreases self.teams@.len() - i,
        {
            let points_for = self.teams[i].record.points_for;
            max = if points_for > max {
                points_for
            } else {
                max
            };
            assert(self.teams@.subrange(0, i + 1).drop_last() =~= self.teams@.subrange(
                0,
                i as int,
            ));
            i += 1;
        }
        assert(self.teams@.subrange(0, i as int) =~= self.teams@);
        max
    }

    /// Ranks the teams, heaviest composite weight first; teams of equal weight
    /// keep their league order. With an all-play map each team's weight
    /// includes its all-play win weight, a team without an entry counting 0.
    pub fn rank(&self, all_play: Option<&HashMap<u8, u32>>) -> (r: Result<
        Vec<RankedTeam>,
        RankingError,
    >)
        ensures
            rank_outcome(self.teams@, all_play_view(all_play), ranking_view(r)),
    {
        let ghost teams = self.teams@;
        let ghost ws = team_weights(teams, all_play_view(all_play));
        let max_points = self.get_max_points_for();
        if max_points == 0 {
            return Err(RankingError::NoScoringData);
        }
        let ghost d: int = WIN_PERCENTAGE_DENOMINATOR * max_points;
        let n = self.teams.len();
        let mut weights: Vec<Weight> = Vec::new();
        let mut scales: Vec<u128> = Vec::new();
        let mut i: usize = 0;
        while i < n
            invariant
                n == teams.len(),
                teams == self.teams@,
                ws == team_weights(teams, all_play_view(all_play)),
                max_points == max_points_for(teams),
                max_points > 0,
                ws.len() == n,
                d == WIN_PERCENTAGE_DENOMINATOR * max_points,
                i <= n,
                weights@.len() == i,
                scales@.len() == i,
                forall|j: int|
                    0 <= j < i ==> {
                        &&& (#[trigger] weights@[j]).as_frac() == ws[j]
                        &&& weights@[j].denominator == d * scales@[j]
                        &&& weights@[j].numerator < 0x100_0000_0000_0000_0000_0000
                        &&& 1 <= scales@[j] <= 510 * 45
                    },
            decreases n - i,
        {
            let team = &self.teams[i];
            let total_wins = all_play_count(all_play, team.team_id);
            let (weight, scale) = scaled_weight(team, max_points, total_wins);
            weights.push(weight);
            scales.push(scale);
            assert(ws[i as int] == overall_weight(
                team.record,
                max_points_for(teams),
                all_play_lookup(all_play_view(all_play), team.team_id),
            ));
            assert(weights@[i as int] == weight && scales@[i as int] == scale);
            i += 1;
        }
        let mut order: Vec<usize> = Vec::new();
        let mut i: usize = 0;
        while i < n
            invariant
                n == teams.len() == weights@.len() == scales@.len() == ws.len(),
                i <= n,
                d > 0,
                forall|j: int|
                    0 <= j < n ==> {
                        &&& (#[trigger] weights@[j]).as_frac() == ws[j]
                        &&& weights@[j].denominator == d * scales@[j]
                        &&& weights@[j].numerator < 0x100_0000_0000_0000_0000_0000
                        &&& 1 <= scales@[j] <= 510 * 45
                    },
                order@ == ranked_order(ws, i as nat),
                order@.len() == i,
                forall|p: int| 0 <= p < order@.len() ==> #[trigger] order@[p] < i,
            decreases n - i,
        {
            let mut k: usize = 0;
            while k < order.len() && !outweighs(
                weights[i],
                scales[i],
                weights[order[k]],
                scales[order[k]],
                Ghost(d),
            )
                invariant
                    n == teams.len() == weights@.len() == scales@.len() == ws.len(),
                    i < n,
                    d > 0,
                    forall|j: int|
                        0 <= j < n ==> {
                            &&& (#[trigger] weights@[j]).as_frac() == ws[j]
                            &&& weights@[j].denominator == d * scales@[j]
                            &&& weights@[j].numerator < 0x100_0000_0000_0000_0000_0000
                            &&& 1 <= scales@[j] <= 510 * 45
                        },
                    order@.len() == i,
                    forall|p: int| 0 <= p < order@.len() ==> #[trigger] order@[p] < i,
                    k <= order@.len(),
                    forall|p: int|
                        0 <= p < k ==> !exceeds(ws[i as int], #[trigger] ws[order@[p] as int]),
                decreases order@.len() - k,
            {
                k += 1;
            }
            proof {
                if k < order@.len() {
                    assert(weights@[order@[k as int] as int].as_frac() == ws[order@[k as int] as int]);
                }
                lemma_insert_ranked_at(ws, order@, i, k as int);
            }
            order.insert(k, i);
            i += 1;
        }
        let mut ranked: Vec<RankedTeam> = Vec::new();
        let mut p: usize = 0;
        while p < n
            invariant
                n == teams.len() == weights@.len() == order@.len() == ws.len(),
                p <= n,
                forall|j: int| 0 <= j < n ==> (#[trigger] weights@[j]).as_frac() == ws[j],
                forall|q: int| 0 <= q < order@.len() ==> #[trigger] order@[q] < n,
                order@ == ranked_order(ws, n as nat),
                ranked@.len() == p,
                forall|q: int|
                    0 <= q < p ==> {
                        &&& #[trigger] ranked@[q].index == order@[q]
                        &&& ranked@[q].weight.as_frac() == ws[ranked@[q].index as int]
                    },
            decreases n - p,
        {
            let index = order[p];
            ranked.push(RankedTeam { index, weight: weights[index] });
            p += 1;
        }
        Ok(ranked)
    }
}

} // verus!
