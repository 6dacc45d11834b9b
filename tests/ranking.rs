use power_rankings::endpoints::{default_int, default_usize, retrieve_league_data, retrieve_league_schedule};
use power_rankings::league::{League, RankedTeam};
use power_rankings::schedule::{Matchup, Schedule, Score, Week};
use power_rankings::weights::{RankingError, Record, Team, Weight};
use std::cmp::Ordering;
use std::collections::HashMap;

fn team(team_id: u8, wins: u8, losses: u8, percentage: u32, points_for: u32) -> Team {
    Team {
        record: Record {
            overall_losses: losses,
            overall_percentage: percentage,
            overall_wins: wins,
            points_for,
        },
        team_id,
        team_location: format!("City{}", team_id),
        team_nickname: format!("Team{}", team_id),
        overall_wins: 0,
    }
}

fn matchup(away: u8, away_score: i64, home: u8, home_score: i64, outcome: u8) -> Matchup {
    Matchup {
        away_team_id: away,
        home_team_id: home,
        away_team_scores: vec![away_score, 7],
        home_team_scores: vec![home_score, 9],
        outcome,
    }
}

fn same_value(w: Weight, numerator: u128, denominator: u128) -> bool {
    w.numerator * denominator == numerator * w.denominator
}

fn league(teams: Vec<Team>) -> League {
    League { teams, league_size: 0 }
}

#[test]
fn two_team_season_end_to_end() {
    let schedule = Schedule {
        schedule_items: vec![Week { matchups: vec![matchup(1, 100_000, 2, 80_000, 1)] }],
    };
    let wins = schedule.calculate_overall_wins();
    assert_eq!(wins.len(), 2);
    assert_eq!(wins[&1], 1);
    assert_eq!(wins[&2], 0);

    let mut l = league(vec![team(2, 0, 1, 0, 80_000), team(1, 1, 0, 1_000_000, 100_000)]);
    l.set_league_size();
    assert_eq!(l.league_size, 2);
    assert_eq!(l.get_max_points_for(), 100_000);

    let ranked = l.rank(Some(&wins)).unwrap();
    assert_eq!(ranked.len(), 2);
    assert_eq!(ranked[0].index, 1);
    assert_eq!(ranked[1].index, 0);
    // 1.2 + 100/100 + 1/45 = 20/9
    assert!(same_value(ranked[0].weight, 20, 9));
    // 0 + 80/100 + 0/45 = 4/5
    assert!(same_value(ranked[1].weight, 4, 5));
}

#[test]
fn week_of_two_matchups_awards_six_wins() {
    let schedule = Schedule {
        schedule_items: vec![Week {
            matchups: vec![matchup(1, 90_500, 2, 70_250, 1), matchup(3, 120_000, 4, 60_000, 2)],
        }],
    };
    let wins = schedule.calculate_overall_wins();
    assert_eq!(wins[&3], 3);
    assert_eq!(wins[&1], 2);
    assert_eq!(wins[&2], 1);
    assert_eq!(wins[&4], 0);
    assert_eq!(wins.values().sum::<u32>(), 6);
}

#[test]
fn wins_accumulate_over_weeks() {
    let schedule = Schedule {
        schedule_items: vec![
            Week { matchups: vec![matchup(1, 10, 2, 20, 1), matchup(3, 30, 4, 40, 1)] },
            Week { matchups: vec![matchup(1, 50, 3, 5, 1), matchup(2, 1, 4, 2, 1)] },
            Week { matchups: vec![] },
        ],
    };
    let wins = schedule.calculate_overall_wins();
    assert_eq!(wins[&1], 0 + 3);
    assert_eq!(wins[&2], 1 + 0);
    assert_eq!(wins[&3], 2 + 2);
    assert_eq!(wins[&4], 3 + 1);
}

#[test]
fn undecided_matchup_contributes_nothing() {
    let decided = Schedule {
        schedule_items: vec![Week { matchups: vec![matchup(1, 100, 2, 50, 1)] }],
    };
    let with_undecided = Schedule {
        schedule_items: vec![Week {
            matchups: vec![matchup(3, 1_000_000, 4, 900_000, 0), matchup(1, 100, 2, 50, 1)],
        }],
    };
    let a = decided.calculate_overall_wins();
    let b = with_undecided.calculate_overall_wins();
    assert_eq!(a, b);
    assert!(!b.contains_key(&3));
    assert!(!b.contains_key(&4));
    assert_eq!(
        with_undecided.schedule_items[0].get_week_scores(),
        vec![Score { team_id: 1, score: 100 }, Score { team_id: 2, score: 50 }]
    );
}

#[test]
fn undecided_matchup_may_have_no_scores() {
    let m = Matchup {
        away_team_id: 5,
        home_team_id: 6,
        away_team_scores: vec![],
        home_team_scores: vec![],
        outcome: 0,
    };
    let w = Week { matchups: vec![m, matchup(1, 3, 2, 4, 1)] };
    assert_eq!(w.get_week_scores().len(), 2);
}

#[test]
fn matchup_scores_use_first_period_value() {
    let m = matchup(7, 12_340, 8, 56_780, 1);
    assert_eq!(
        m.get_matchup_scores(),
        vec![Score { team_id: 7, score: 12_340 }, Score { team_id: 8, score: 56_780 }]
    );
}

#[test]
fn equal_scores_favour_the_earlier_entry() {
    let schedule = Schedule {
        schedule_items: vec![Week { matchups: vec![matchup(1, 50, 2, 50, 1)] }],
    };
    let wins = schedule.calculate_overall_wins();
    assert_eq!(wins[&1], 1);
    assert_eq!(wins[&2], 0);
}

#[test]
fn empty_schedule_gives_empty_map() {
    let schedule = Schedule { schedule_items: vec![] };
    assert!(schedule.calculate_overall_wins().is_empty());
}

#[test]
fn stage_multiplier_by_weeks_played() {
    let pct: u32 = 500_000;
    let w1 = team(1, 1, 0, pct, 0).calculate_win_percentage_weight();
    assert!(same_value(w1, 6, 10)); // 0.5 * 1.2
    let w2 = team(1, 1, 1, pct, 0).calculate_win_percentage_weight();
    assert!(same_value(w2, 12, 10)); // 0.5 * 2.4
    let w3 = team(1, 2, 1, pct, 0).calculate_win_percentage_weight();
    assert!(same_value(w3, 15, 10)); // 0.5 * 3.0
    let w10 = team(1, 6, 4, pct, 0).calculate_win_percentage_weight();
    assert!(same_value(w10, 15, 10)); // 0.5 * 3.0
    let w0 = team(1, 0, 0, 0, 0).calculate_win_percentage_weight();
    assert_eq!(w0.numerator, 0);
    assert_eq!(w1, Weight { numerator: 3_000_000, denominator: 5_000_000 });
}

#[test]
fn weeks_played_and_possible_wins() {
    let t = team(1, 2, 1, 666_667, 0);
    assert_eq!(t.get_weeks_played(), 3);
    assert_eq!(t.calculate_possible_total_wins(), 135);
    assert_eq!(team(1, 200, 200, 0, 0).get_weeks_played(), 400);
    assert_eq!(team(1, 0, 0, 0, 0).calculate_possible_total_wins(), 0);
}

#[test]
fn total_wins_weight_over_possible_wins() {
    let t = team(1, 1, 1, 500_000, 0);
    assert_eq!(t.calculate_total_wins_weight(30), Weight { numerator: 30, denominator: 90 });
    let unplayed = team(1, 0, 0, 0, 0);
    assert_eq!(unplayed.calculate_total_wins_weight(0), Weight { numerator: 0, denominator: 1 });
}

#[test]
fn leader_points_weight_is_one() {
    let l = league(vec![team(1, 1, 0, 1_000_000, 120_500), team(2, 0, 1, 0, 99_000)]);
    let max = l.get_max_points_for();
    assert_eq!(max, 120_500);
    let w = l.teams[0].calculate_points_for_weight(max).unwrap();
    assert_eq!(w.numerator, w.denominator);
    let other = l.teams[1].calculate_points_for_weight(max).unwrap();
    assert_eq!(other, Weight { numerator: 99_000, denominator: 120_500 });
}

#[test]
fn no_scoring_data_is_an_error() {
    let l = league(vec![team(1, 0, 0, 0, 0), team(2, 0, 0, 0, 0)]);
    assert_eq!(l.get_max_points_for(), 0);
    for t in l.teams.iter() {
        assert_eq!(t.calculate_points_for_weight(0), Err(RankingError::NoScoringData));
        assert_eq!(t.calculate_overall_weight(0, Some(0)), Err(RankingError::NoScoringData));
    }
    assert_eq!(l.rank(None), Err(RankingError::NoScoringData));
    let wins: HashMap<u8, u32> = HashMap::new();
    assert_eq!(l.rank(Some(&wins)), Err(RankingError::NoScoringData));
    assert_eq!(
        l.teams[0].compare(&l.teams[1], 0, None),
        Err(RankingError::NoScoringData)
    );
}

#[test]
fn empty_league_has_no_scoring_data() {
    let l = league(vec![]);
    assert_eq!(l.get_max_points_for(), 0);
    assert_eq!(l.rank(None), Err(RankingError::NoScoringData));
}

#[test]
fn overall_weight_with_and_without_all_play() {
    let t = team(1, 2, 1, 666_666, 90_000);
    // 0.666666 * 3 + 90/100
    let base = t.calculate_overall_weight(100_000, None).unwrap();
    assert!(same_value(base, 666_666 * 3 * 100 + 90 * 1_000_000, 100 * 1_000_000));
    // plus 27/135
    let full = t.calculate_overall_weight(100_000, Some(27)).unwrap();
    assert!(same_value(
        full,
        (666_666 * 3 * 100 + 90 * 1_000_000) * 5 + 100 * 1_000_000,
        100 * 1_000_000 * 5
    ));
}

#[test]
fn heavier_team_ranks_first() {
    let l = league(vec![
        team(1, 1, 2, 333_333, 80_000),
        team(2, 3, 0, 1_000_000, 95_000),
        team(3, 2, 1, 666_667, 100_000),
        team(4, 0, 3, 0, 70_000),
    ]);
    let ranked = l.rank(None).unwrap();
    let order: Vec<usize> = ranked.iter().map(|r| r.index).collect();
    assert_eq!(order, vec![1, 2, 0, 3]);
    for pair in ranked.windows(2) {
        let (a, b) = (pair[0].weight, pair[1].weight);
        assert!(a.numerator * b.denominator >= b.numerator * a.denominator);
    }
}

#[test]
fn equal_weights_keep_league_order() {
    let l = league(vec![
        team(1, 1, 1, 500_000, 50_000),
        team(2, 2, 0, 1_000_000, 60_000),
        team(3, 1, 1, 500_000, 50_000),
    ]);
    let ranked = l.rank(None).unwrap();
    let order: Vec<usize> = ranked.iter().map(|r| r.index).collect();
    assert_eq!(order, vec![1, 0, 2]);
    assert_eq!(ranked[1].weight, ranked[2].weight);
}

#[test]
fn team_without_all_play_entry_counts_zero() {
    let l = league(vec![team(1, 1, 0, 1_000_000, 100_000), team(9, 1, 0, 1_000_000, 100_000)]);
    let mut wins: HashMap<u8, u32> = HashMap::new();
    wins.insert(9, 1);
    let ranked = l.rank(Some(&wins)).unwrap();
    assert_eq!(ranked[0].index, 1);
    assert!(same_value(ranked[1].weight, 11, 5)); // 1.2 + 1 + 0/45
}

#[test]
fn ranking_twice_gives_the_same_result() {
    let l = league(vec![
        team(1, 1, 2, 333_333, 80_000),
        team(2, 3, 0, 1_000_000, 95_000),
        team(3, 2, 1, 666_667, 100_000),
    ]);
    let mut wins: HashMap<u8, u32> = HashMap::new();
    wins.insert(1, 40);
    wins.insert(2, 70);
    wins.insert(3, 55);
    let first: Vec<RankedTeam> = l.rank(Some(&wins)).unwrap();
    let second: Vec<RankedTeam> = l.rank(Some(&wins)).unwrap();
    assert_eq!(first, second);
}

#[test]
fn compare_orders_by_weight() {
    let a = team(1, 1, 0, 1_000_000, 100_000);
    let b = team(2, 0, 1, 0, 80_000);
    let c = team(3, 0, 1, 0, 80_000);
    let mut wins: HashMap<u8, u32> = HashMap::new();
    wins.insert(1, 1);
    assert_eq!(a.compare(&b, 100_000, Some(&wins)), Ok(Ordering::Less));
    assert_eq!(b.compare(&a, 100_000, Some(&wins)), Ok(Ordering::Greater));
    assert_eq!(b.compare(&c, 100_000, Some(&wins)), Ok(Ordering::Equal));
    assert_eq!(b.compare(&c, 100_000, None), Ok(Ordering::Equal));
}

#[test]
fn request_urls() {
    assert_eq!(
        retrieve_league_data(12345),
        "https://games.espn.com/ffl/api/v2/teams?leagueId=12345"
    );
    assert_eq!(
        retrieve_league_schedule(0),
        "https://games.espn.com/ffl/api/v2/leagueSchedules?leagueId=0"
    );
    assert_eq!(
        retrieve_league_data(u64::MAX),
        "https://games.espn.com/ffl/api/v2/teams?leagueId=18446744073709551615"
    );
}

#[test]
fn defaults_are_zero() {
    assert_eq!(default_int(), 0);
    assert_eq!(default_usize(), 0);
}

#[test]
fn attach_overall_wins_sets_each_team() {
    let mut l = league(vec![team(1, 1, 0, 1_000_000, 100_000), team(2, 0, 1, 0, 80_000)]);
    l.teams[1].overall_wins = 17;
    let mut wins: HashMap<u8, u32> = HashMap::new();
    wins.insert(1, 12);
    l.attach_overall_wins(&wins);
    assert_eq!(l.teams[0].overall_wins, 12);
    assert_eq!(l.teams[1].overall_wins, 0);
    assert_eq!(l.teams[0].team_location, "City1");
    assert_eq!(l.teams[1].record.points_for, 80_000);
}
