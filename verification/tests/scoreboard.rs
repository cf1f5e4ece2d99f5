use std::collections::HashMap;
use stratum::models::{Contest, Team, User};
use stratum::scoreboard::{
    compute_scoreboard, cutoff_at, score_rows, scoreboard_cutoff, scoreboard_fits, JudgedSubmission, ScoreRow,
};
use stratum::time::Timestamp;

fn ts(secs: i64) -> Timestamp {
    Timestamp::new(secs, 0).unwrap()
}

fn team(id: i64, name: &str) -> Team {
    Team { id, name: name.to_string(), created_at: ts(0), updated_at: ts(0) }
}

fn row(team_id: i64, problem_id: i64, max_score: Option<i64>) -> ScoreRow {
    ScoreRow { team_id, problem_id, max_score }
}

fn contest(freeze: Option<i64>, end: Option<i64>) -> Contest {
    Contest {
        id: 1,
        name: "Spring Cup".to_string(),
        short_name: "spring".to_string(),
        start_at: Some(ts(1_000)),
        freeze_at: freeze.map(ts),
        end_at: end.map(ts),
        created_at: ts(0),
        updated_at: ts(0),
    }
}

fn user(rights: i16) -> User {
    User {
        id: 7,
        team_id: None,
        username: "u".to_string(),
        password_hash: String::new(),
        rights,
        created_at: ts(0),
        updated_at: ts(0),
    }
}

#[test]
fn teams_are_ranked_by_total() {
    let teams = vec![team(1, "alpha"), team(2, "beta"), team(3, "gamma")];
    let rows = vec![
        row(1, 10, Some(30)),
        row(2, 10, Some(50)),
        row(2, 11, Some(20)),
        row(3, 11, Some(40)),
    ];
    let sb = compute_scoreboard(teams, &rows);
    let order: Vec<(i64, i64)> = sb.teams.iter().map(|t| (t.team.id, t.total)).collect();
    assert_eq!(order, vec![(2, 70), (3, 40), (1, 30)]);
    let beta = &sb.teams[0];
    assert_eq!(beta.team.name, "beta");
    let mut expected = HashMap::new();
    expected.insert(10, 50);
    expected.insert(11, 20);
    assert_eq!(beta.problem_scores, expected);
}

#[test]
fn best_score_per_problem_is_the_highest() {
    let teams = vec![team(1, "alpha"), team(2, "beta")];
    let rows = vec![row(1, 10, Some(30)), row(2, 10, Some(50)), row(1, 11, Some(5)), row(2, 11, None)];
    let sb = compute_scoreboard(teams, &rows);
    let mut expected = HashMap::new();
    expected.insert(10, 50);
    expected.insert(11, 5);
    assert_eq!(sb.best_scores, expected);
}

#[test]
fn missing_and_negative_scores_count_nothing() {
    let teams = vec![team(1, "alpha"), team(2, "beta")];
    let rows = vec![row(1, 10, None), row(1, 11, Some(-4)), row(2, 12, Some(0))];
    let sb = compute_scoreboard(teams, &rows);
    assert_eq!(sb.teams.len(), 2);
    for t in &sb.teams {
        assert_eq!(t.total, 0);
        assert!(t.problem_scores.is_empty());
    }
    let mut expected = HashMap::new();
    expected.insert(10, 0);
    expected.insert(11, -4);
    expected.insert(12, 0);
    assert_eq!(sb.best_scores, expected);
}

#[test]
fn teams_without_rows_stay_on_the_board() {
    let teams = vec![team(1, "alpha"), team(2, "beta"), team(3, "gamma")];
    let rows = vec![row(3, 10, Some(1))];
    let sb = compute_scoreboard(teams, &rows);
    assert_eq!(sb.teams.len(), 3);
    assert_eq!(sb.teams[0].team.id, 3);
    let mut rest: Vec<i64> = sb.teams[1..].iter().map(|t| t.team.id).collect();
    rest.sort();
    assert_eq!(rest, vec![1, 2]);
}

#[test]
fn one_line_per_team_id_the_last_listed() {
    let teams = vec![team(1, "old name"), team(2, "beta"), team(1, "new name")];
    let sb = compute_scoreboard(teams, &Vec::new());
    assert_eq!(sb.teams.len(), 2);
    let alpha = sb.teams.iter().find(|t| t.team.id == 1).unwrap();
    assert_eq!(alpha.team.name, "new name");
}

#[test]
fn empty_board() {
    let sb = compute_scoreboard(Vec::new(), &Vec::new());
    assert!(sb.teams.is_empty());
    assert!(sb.best_scores.is_empty());
}

#[test]
fn total_is_at_least_each_problem_score() {
    let teams = vec![team(1, "alpha")];
    let rows = vec![row(1, 10, Some(3)), row(1, 11, Some(9)), row(1, 12, Some(-2))];
    let sb = compute_scoreboard(teams, &rows);
    let t = &sb.teams[0];
    assert_eq!(t.total, 12);
    for (_, s) in &t.problem_scores {
        assert!(*s > 0 && *s <= t.total);
    }
}

#[test]
fn visitors_see_the_freeze_and_admins_the_end() {
    let c = contest(Some(5_000), Some(9_000));
    let now = ts(7_000);
    assert_eq!(cutoff_at(&c, None, now), ts(5_000));
    assert_eq!(cutoff_at(&c, Some(&user(1)), now), ts(5_000));
    assert_eq!(cutoff_at(&c, Some(&user(999)), now), ts(5_000));
    assert_eq!(cutoff_at(&c, Some(&user(1000)), now), ts(9_000));
}

#[test]
fn without_a_stored_cutoff_the_clock_counts() {
    let c = contest(None, None);
    let now = ts(7_000);
    assert_eq!(cutoff_at(&c, None, now), now);
    assert_eq!(cutoff_at(&c, Some(&user(1000)), now), now);
    let c = contest(Some(5_000), None);
    assert_eq!(cutoff_at(&c, Some(&user(1000)), now), now);
    assert_eq!(cutoff_at(&c, None, now), ts(5_000));
}

#[test]
fn scoreboard_cutoff_uses_the_stored_instant() {
    let c = contest(Some(5_000), Some(9_000));
    assert_eq!(scoreboard_cutoff(&c, None), Some(ts(5_000)));
    assert_eq!(scoreboard_cutoff(&c, Some(&user(1000))), Some(ts(9_000)));
    let open = contest(None, None);
    assert!(scoreboard_cutoff(&open, None).unwrap().secs() > 946_684_800);
}

#[test]
fn rows_must_belong_to_listed_teams_and_fit() {
    let teams = vec![team(1, "alpha"), team(2, "beta")];
    assert!(scoreboard_fits(&teams, &vec![row(1, 10, Some(5)), row(2, 10, None)]));
    assert!(scoreboard_fits(&teams, &vec![row(3, 10, None), row(3, 11, Some(-1)), row(3, 12, Some(0))]));
    assert!(!scoreboard_fits(&teams, &vec![row(3, 10, Some(1))]));
    assert!(scoreboard_fits(&teams, &vec![row(1, 10, Some(i64::MAX)), row(2, 10, Some(i64::MAX))]));
    assert!(!scoreboard_fits(&teams, &vec![row(1, 10, Some(i64::MAX)), row(1, 11, Some(1))]));
    assert!(scoreboard_fits(&Vec::new(), &Vec::new()));
}

fn judged(team_id: i64, problem_id: i64, at: i64, score: Option<i64>, valid: bool) -> JudgedSubmission {
    JudgedSubmission { team_id, problem_id, created_at: ts(at), score, valid }
}

fn sorted(rows: Vec<ScoreRow>) -> Vec<(i64, i64, Option<i64>)> {
    let mut v: Vec<(i64, i64, Option<i64>)> = rows.into_iter().map(|r| (r.team_id, r.problem_id, r.max_score)).collect();
    v.sort();
    v
}

#[test]
fn best_scores_count_valid_judgements_before_the_cutoff() {
    let es = vec![
        judged(1, 10, 100, Some(3), true),
        judged(1, 10, 200, Some(7), true),
        judged(1, 10, 300, Some(9), false),
        judged(1, 11, 100, None, true),
        judged(2, 10, 100, None, true),
        judged(2, 10, 150, Some(-2), true),
        judged(2, 11, 500, Some(50), true),
    ];
    let rows = score_rows(&es, ts(400));
    assert_eq!(sorted(rows), vec![(1, 10, Some(7)), (1, 11, None), (2, 10, Some(-2))]);
    assert!(score_rows(&es, ts(100)).is_empty());
    assert!(score_rows(&Vec::new(), ts(100)).is_empty());
}

#[test]
fn a_frozen_board_ignores_late_submissions() {
    let c = contest(Some(1_000), Some(2_000));
    let cut = cutoff_at(&c, None, ts(5_000));
    assert_eq!(cut, ts(1_000));
    let early = vec![judged(1, 10, 500, Some(4), true), judged(2, 10, 900, Some(6), true)];
    let mut late = early.clone();
    late.push(judged(1, 10, 1_000, Some(100), true));
    late.push(judged(2, 11, 1_500, Some(30), true));
    assert_eq!(sorted(score_rows(&early, cut)), sorted(score_rows(&late, cut)));
    let admin_cut = cutoff_at(&c, Some(&user(1000)), ts(5_000));
    assert_eq!(sorted(score_rows(&late, admin_cut)), vec![(1, 10, Some(100)), (2, 10, Some(6)), (2, 11, Some(30))]);
}

#[test]
fn with_one_row_per_pair_a_total_is_the_sum_of_problem_scores() {
    let es = vec![
        judged(1, 10, 100, Some(3), true),
        judged(1, 11, 100, Some(4), true),
        judged(1, 10, 150, Some(5), true),
        judged(1, 12, 100, Some(-1), true),
        judged(2, 10, 100, Some(8), true),
    ];
    let rows = score_rows(&es, ts(1_000));
    let sb = compute_scoreboard(vec![team(1, "alpha"), team(2, "beta")], &rows);
    for t in &sb.teams {
        assert_eq!(t.total, t.problem_scores.values().sum::<i64>());
    }
    assert_eq!(sb.teams[0].team.id, 1);
    assert_eq!(sb.teams[0].total, 9);
}

#[test]
fn a_frozen_board_shows_the_same_standings() {
    let c = contest(Some(1_000), None);
    let cut = cutoff_at(&c, Some(&user(1)), ts(5_000));
    let early = vec![judged(1, 10, 500, Some(4), true), judged(2, 10, 900, Some(6), true)];
    let mut late = early.clone();
    late.push(judged(1, 10, 1_200, Some(100), true));
    late.push(judged(1, 11, 999, Some(9), false));
    let teams = || vec![team(1, "alpha"), team(2, "beta")];
    let view = |es: &Vec<JudgedSubmission>| {
        let sb = compute_scoreboard(teams(), &score_rows(es, cut));
        let mut lines: Vec<(i64, i64)> = sb.teams.iter().map(|t| (t.team.id, t.total)).collect();
        lines.sort();
        (lines, sb.best_scores)
    };
    assert_eq!(view(&early), view(&late));
}
