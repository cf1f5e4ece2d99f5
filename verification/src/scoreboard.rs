//! The contest scoreboard: per-team totals and per-problem best scores,
//! teams ranked by total.

use vstd::prelude::*;
use std::collections::HashMap;
use crate::models::{Contest, Team, User, ADMIN_RIGHTS};
use crate::time::{Timestamp, now, read_from_clock};

verus! {

broadcast use vstd::std_specs::hash::group_hash_axioms;

/// The best score that a team reached on a problem, as the judgements
/// before the cutoff give it (`None` where no judgement gave a score).
#[derive(Clone, Debug)]
pub struct ScoreRow {
    pub team_id: i64,
    pub problem_id: i64,
    pub max_score: Option<i64>,
}

/// A team's line on the scoreboard.
#[derive(Clone, Debug)]
pub struct TeamStanding {
    pub team: Team,
    /// The sum of the team's positive problem scores.
    pub total: i64,
    /// The team's positive score on each problem.
    pub problem_scores: HashMap<i64, i64>,
}

/// The scoreboard: the teams, best first, and the best score on each problem.
#[derive(Clone, Debug)]
pub struct Scoreboard {
    pub teams: Vec<TeamStanding>,
    pub best_scores: HashMap<i64, i64>,
}

/// The score a row counts with: a missing score counts as 0.
pub open spec fn row_score(r: ScoreRow) -> int {
    match r.max_score {
        Some(s) => s as int,
        None => 0,
    }
}

/// The sum of a team's positive row scores.
pub open spec fn team_total(rows: Seq<ScoreRow>, team_id: i64) -> int
    decreases rows.len(),
{
    if rows.len() == 0 {
        0
    } else {
        team_total(rows.drop_last(), team_id) + if rows.last().team_id == team_id && row_score(
            rows.last(),
        ) > 0 {
            row_score(rows.last())
        } else {
            0
        }
    }
}

/// A team's positive score on each problem; a later row for the same
/// problem replaces an earlier one.
pub open spec fn team_problem_scores(rows: Seq<ScoreRow>, team_id: i64) -> Map<i64, i64>
    decreases rows.len(),
{
    if rows.len() == 0 {
        Map::empty()
    } else {
        let m = team_problem_scores(rows.drop_last(), team_id);
        let r = rows.last();
        if r.team_id == team_id && row_score(r) > 0 {
            m.insert(r.problem_id, row_score(r) as i64)
        } else {
            m
        }
    }
}

/// The best row score on each problem that has rows.
pub open spec fn best_scores(rows: Seq<ScoreRow>) -> Map<i64, i64>
    decreases rows.len(),
{
    if rows.len() == 0 {
        Map::empty()
    } else {
        let m = best_scores(rows.drop_last());
        let r = rows.last();
        let s = row_score(r) as i64;
        if m.contains_key(r.problem_id) && m[r.problem_id] >= s {
            m
        } else {
            m.insert(r.problem_id, s)
        }
    }
}

/// The last team in the list with this id.
pub open spec fn last_team_with_id(teams: Seq<Team>, id: i64) -> Option<Team>
    decreases teams.len(),
{
    if teams.len() == 0 {
        None
    } else if teams.last().id == id {
        Some(teams.last())
    } else {
        last_team_with_id(teams.drop_last(), id)
    }
}

/// Whether some team of the list has this id.
pub open spec fn lists_team_id(teams: Seq<Team>, id: i64) -> bool {
    exists|i: int| 0 <= i < teams.len() && #[trigger] teams[i].id == id
}

/// Whether some line of the board is for this team id.
pub open spec fn boards_team_id(board: Seq<TeamStanding>, id: i64) -> bool {
    exists|i: int| 0 <= i < board.len() && #[trigger] board[i].team.id == id
}

/// What the scoreboard requires of its rows: every row that scores belongs
/// to a listed team, and no team's total leaves `i64`.
pub open spec fn rows_fit(teams: Seq<Team>, rows: Seq<ScoreRow>) -> bool {
    &&& forall|k: int|
        0 <= k < rows.len() && row_score(#[trigger] rows[k]) > 0 ==> lists_team_id(
            teams,
            rows[k].team_id,
        )
    &&& forall|id: i64| #[trigger] team_total(rows, id) <= i64::MAX
}

/// A line that is right for this team id.
pub open spec fn standing_ok(teams: Seq<Team>, rows: Seq<ScoreRow>, st: TeamStanding) -> bool {
    &&& last_team_with_id(teams, st.team.id) == Some(st.team)
    &&& st.total == team_total(rows, st.team.id)
    &&& st.problem_scores@ == team_problem_scores(rows, st.team.id)
}

/// One right line for each team id of the list, best total first.
pub open spec fn ranks(teams: Seq<Team>, rows: Seq<ScoreRow>, board: Seq<TeamStanding>) -> bool {
    &&& forall|i: int| 0 <= i < board.len() ==> standing_ok(teams, rows, #[trigger] board[i])
    &&& forall|i: int, j: int|
        0 <= i < j < board.len() ==> #[trigger] board[i].team.id != #[trigger] board[j].team.id
    &&& forall|k: int| 0 <= k < teams.len() ==> boards_team_id(board, #[trigger] teams[k].id)
    &&& forall|i: int, j: int|
        0 <= i < j < board.len() ==> #[trigger] board[i].total >= #[trigger] board[j].total
}

proof fn lemma_last_team_found(teams: Seq<Team>, id: i64)
    ensures
        last_team_with_id(teams, id) matches Some(t) ==> t.id == id && exists|j: int|
            0 <= j < teams.len() && teams[j] == t,
        last_team_with_id(teams, id) is None ==> forall|j: int|
            0 <= j < teams.len() ==> teams[j].id != id,
    decreases teams.len(),
{
    if teams.len() > 0 {
        lemma_last_team_found(teams.drop_last(), id);
        assert forall|j: int| 0 <= j < teams.len() - 1 implies teams[j] == teams.drop_last()[j] by {}
        if teams.last().id != id {
            if let Some(t) = last_team_with_id(teams, id) {
                let j = choose|j: int| 0 <= j < teams.drop_last().len() && teams.drop_last()[j] == t;
                assert(teams[j] == t);
            }
        }
    }
}

proof fn lemma_last_team_prefix(teams: Seq<Team>, n: int, id: i64)
    requires
        0 <= n <= teams.len(),
        forall|j: int| n <= j < teams.len() ==> teams[j].id != id,
    ensures
        last_team_with_id(teams, id) == last_team_with_id(teams.take(n), id),
    decreases teams.len(),
{
    if n == teams.len() {
        assert(teams.take(n) =~= teams);
    } else {
        assert(teams.drop_last().take(n) =~= teams.take(n));
        lemma_last_team_prefix(teams.drop_last(), n, id);
    }
}

/// The teams with one team per id: the last of the list with that id.
fn distinct_teams(teams: Vec<Team>) -> (r: Vec<Team>)
    ensures
        forall|i: int|
            0 <= i < r.len() ==> last_team_with_id(teams@, #[trigger] r@[i].id) == Some(r@[i]),
        forall|i: int, j: int| 0 <= i < j < r.len() ==> #[trigger] r@[i].id != #[trigger] r@[j].id,
        forall|k: int| 0 <= k < teams@.len() ==> lists_team_id(r@, #[trigger] teams@[k].id),
{
    let ghost all = teams@;
    let mut rest = teams;
    let mut out: Vec<Team> = Vec::new();
    while rest.len() > 0
        invariant
            rest@ == all.take(rest.len() as int),
            rest.len() <= all.len(),
            forall|i: int|
                0 <= i < out.len() ==> last_team_with_id(all, #[trigger] out@[i].id) == Some(
                    out@[i],
                ),
            forall|i: int, j: int|
                0 <= i < j < out.len() ==> #[trigger] out@[i].id != #[trigger] out@[j].id,
            forall|k: int| rest.len() <= k < all.len() ==> lists_team_id(out@, #[trigger] all[k].id),
        decreases rest.len(),
    {
        let ghost j = rest.len() - 1;
        let t = rest.pop().unwrap();
        proof {
            assert(all.take(j + 1)[j] == t);
            assert(rest@ =~= all.take(j));
        }
        let mut seen = false;
        let mut i: usize = 0;
        while i < out.len()
            invariant
                i <= out.len(),
                seen <==> exists|x: int| 0 <= x < i && #[trigger] out@[x].id == t.id,
            decreases out.len() - i,
        {
            if out[i].id == t.id {
                seen = true;
            }
            i = i + 1;
        }
        if !seen {
            proof {
                assert forall|k: int| j + 1 <= k < all.len() implies all[k].id != t.id by {
                    assert(lists_team_id(out@, all[k].id));
                }
                lemma_last_team_prefix(all, j + 1, t.id);
                assert(all.take(j + 1).drop_last() =~= all.take(j));
            }
            let ghost before = out@;
            out.push(t);
            proof {
                assert forall|k: int| j <= k < all.len() implies lists_team_id(out@, #[trigger] all[k].id) by {
                    if k == j {
                        assert(out@[out.len() - 1].id == all[k].id);
                    } else {
                        assert(lists_team_id(before, all[k].id));
                        let x = choose|x: int| 0 <= x < before.len() && #[trigger] before[x].id == all[k].id;
                        assert(out@[x] == before[x]);
                    }
                }
            }
        } else {
            proof {
                assert(lists_team_id(out@, all[j].id));
            }
        }
    }
    proof {
        assert forall|k: int| 0 <= k < teams@.len() implies lists_team_id(out@, #[trigger] teams@[k].id) by {
            assert(rest.len() <= k < all.len());
            assert(teams@[k] == all[k]);
        }
    }
    out
}


proof fn lemma_team_total_bounds(rows: Seq<ScoreRow>, n: int, id: i64)
    requires
        0 <= n <= rows.len(),
    ensures
        0 <= team_total(rows.take(n), id) <= team_total(rows, id),
    decreases rows.len(),
{
    if n == rows.len() {
        assert(rows.take(n) =~= rows);
        if rows.len() > 0 {
            lemma_team_total_bounds(rows.drop_last(), 0, id);
        }
    } else {
        assert(rows.take(n) =~= rows.drop_last().take(n));
        lemma_team_total_bounds(rows.drop_last(), n, id);
    }
}

/// A team's line: its total and its score on each problem.
fn team_standing(rows: &Vec<ScoreRow>, team: Team) -> (st: TeamStanding)
    requires
        team_total(rows@, team.id) <= i64::MAX,
    ensures
        st.team == team,
        st.total == team_total(rows@, team.id),
        st.problem_scores@ == team_problem_scores(rows@, team.id),
{
    let id = team.id;
    let mut total: i64 = 0;
    let mut scores: HashMap<i64, i64> = HashMap::new();
    let n = rows.len();
    for i in 0..n
        invariant
            n == rows@.len(),
            team_total(rows@, id) <= i64::MAX,
            total == team_total(rows@.take(i as int), id),
            scores@ == team_problem_scores(rows@.take(i as int), id),
    {
        let row = &rows[i];
        proof {
            assert(rows@.take(i + 1).drop_last() =~= rows@.take(i as int));
            lemma_team_total_bounds(rows@, i + 1, id);
        }
        let score: i64 = match row.max_score {
            Some(s) => s,
            None => 0,
        };
        if row.team_id == id && score > 0 {
            scores.insert(row.problem_id, score);
            total = total + score;
        }
    }
    proof {
        assert(rows@.take(n as int) =~= rows@);
    }
    TeamStanding { team, total, problem_scores: scores }
}

/// The best row score on each problem.
fn best_scores_of(rows: &Vec<ScoreRow>) -> (m: HashMap<i64, i64>)
    ensures
        m@ == best_scores(rows@),
{
    let mut m: HashMap<i64, i64> = HashMap::new();
    let n = rows.len();
    for i in 0..n
        invariant
            n == rows@.len(),
            m@ == best_scores(rows@.take(i as int)),
    {
        let row = &rows[i];
        proof {
            assert(rows@.take(i + 1).drop_last() =~= rows@.take(i as int));
        }
        let score: i64 = match row.max_score {
            Some(s) => s,
            None => 0,
        };
        let keep = match m.get(&row.problem_id) {
            Some(best) => *best >= score,
            None => false,
        };
        if !keep {
            m.insert(row.problem_id, score);
        }
    }
    proof {
        assert(rows@.take(n as int) =~= rows@);
    }
    m
}


/// The lines built so far: right, for exactly the teams `u[n..]`, distinct
/// and ordered by total.
spec fn board_so_far(
    all: Seq<Team>,
    rows: Seq<ScoreRow>,
    u: Seq<Team>,
    n: int,
    board: Seq<TeamStanding>,
) -> bool {
    &&& forall|i: int| 0 <= i < board.len() ==> standing_ok(all, rows, #[trigger] board[i])
    &&& forall|i: int|
        0 <= i < board.len() ==> exists|k: int|
            n <= k < u.len() && #[trigger] u[k].id == #[trigger] board[i].team.id
    &&& forall|k: int| n <= k < u.len() ==> boards_team_id(board, #[trigger] u[k].id)
    &&& forall|i: int, j: int|
        0 <= i < j < board.len() ==> #[trigger] board[i].team.id != #[trigger] board[j].team.id
    &&& forall|i: int, j: int|
        0 <= i < j < board.len() ==> #[trigger] board[i].total >= #[trigger] board[j].total
}

proof fn lemma_insert_line(
    all: Seq<Team>,
    rows: Seq<ScoreRow>,
    u: Seq<Team>,
    j: int,
    before: Seq<TeamStanding>,
    p: int,
    st: TeamStanding,
)
    requires
        0 <= j < u.len(),
        0 <= p <= before.len(),
        forall|a: int, b: int| 0 <= a < b < u.len() ==> #[trigger] u[a].id != #[trigger] u[b].id,
        board_so_far(all, rows, u, j + 1, before),
        standing_ok(all, rows, st),
        st.team.id == u[j].id,
        forall|i: int| 0 <= i < p ==> #[trigger] before[i].total >= st.total,
        p < before.len() ==> before[p].total < st.total,
    ensures
        board_so_far(all, rows, u, j, before.insert(p, st)),
{
    let board = before.insert(p, st);
    assert forall|i: int| 0 <= i < board.len() implies standing_ok(all, rows, #[trigger] board[i]) by {
        if i < p {
            assert(board[i] == before[i]);
        } else if i > p {
            assert(board[i] == before[i - 1]);
        }
    }
    assert forall|i: int| 0 <= i < board.len() implies exists|k: int|
        j <= k < u.len() && #[trigger] u[k].id == #[trigger] board[i].team.id by {
        if i < p {
            assert(board[i] == before[i]);
            let k = choose|k: int| j + 1 <= k < u.len() && #[trigger] u[k].id == before[i].team.id;
            assert(u[k].id == board[i].team.id);
        } else if i > p {
            assert(board[i] == before[i - 1]);
            let k = choose|k: int| j + 1 <= k < u.len() && #[trigger] u[k].id == before[i - 1].team.id;
            assert(u[k].id == board[i].team.id);
        } else {
            assert(u[j].id == board[i].team.id);
        }
    }
    assert forall|k: int| j <= k < u.len() implies boards_team_id(board, #[trigger] u[k].id) by {
        if k == j {
            assert(board[p].team.id == u[k].id);
        } else {
            assert(boards_team_id(before, u[k].id));
            let i = choose|i: int| 0 <= i < before.len() && #[trigger] before[i].team.id == u[k].id;
            if i < p {
                assert(board[i] == before[i]);
            } else {
                assert(board[i + 1] == before[i]);
            }
        }
    }
    assert forall|a: int, b: int| 0 <= a < b < board.len() implies #[trigger] board[a].team.id
        != #[trigger] board[b].team.id by {
        if a == p || b == p {
            let o = if a == p { b } else { a };
            let oi = if o < p { o } else { o - 1 };
            assert(board[o] == before[oi]);
            let k = choose|k: int| j + 1 <= k < u.len() && #[trigger] u[k].id == before[oi].team.id;
            assert(u[k].id != u[j].id);
        } else {
            let ai = if a < p { a } else { a - 1 };
            let bi = if b < p { b } else { b - 1 };
            assert(board[a] == before[ai]);
            assert(board[b] == before[bi]);
        }
    }
    assert forall|a: int, b: int| 0 <= a < b < board.len() implies #[trigger] board[a].total
        >= #[trigger] board[b].total by {
        let ai = if a < p { a } else { a - 1 };
        let bi = if b < p { b } else { b - 1 };
        if a != p {
            assert(board[a] == before[ai]);
        }
        if b != p {
            assert(board[b] == before[bi]);
        }
        if a == p && b > p + 1 {
            assert(before[p].total >= before[bi].total);
        }
        if b == p && a < p {
            assert(before[ai].total >= st.total);
        }
    }
}

/// Builds the scoreboard from the teams and from each team's best score per
/// problem: one line per team id (the last team of the list with that id),
/// the lines ordered by total, highest first, and the best score on each
/// problem.
pub fn compute_scoreboard(teams: Vec<Team>, rows: &Vec<ScoreRow>) -> (sb: Scoreboard)
    requires
        rows_fit(teams@, rows@),
    ensures
        ranks(teams@, rows@, sb.teams@),
        sb.best_scores@ == best_scores(rows@),
{
    let ghost all = teams@;
    let mut uniq = distinct_teams(teams);
    let ghost u = uniq@;
    let mut board: Vec<TeamStanding> = Vec::new();
    while uniq.len() > 0
        invariant
            uniq@ == u.take(uniq.len() as int),
            uniq.len() <= u.len(),
            rows_fit(all, rows@),
            forall|i: int| 0 <= i < u.len() ==> last_team_with_id(all, #[trigger] u[i].id) == Some(u[i]),
            forall|i: int, j: int| 0 <= i < j < u.len() ==> #[trigger] u[i].id != #[trigger] u[j].id,
            board_so_far(all, rows@, u, uniq.len() as int, board@),
        decreases uniq.len(),
    {
        let ghost j = uniq.len() - 1;
        let team = uniq.pop().unwrap();
        proof {
            assert(u.take(j + 1)[j] == team);
            assert(uniq@ =~= u.take(j));
        }
        let st = team_standing(rows, team);
        let mut p: usize = 0;
        loop
            invariant
                p <= board.len(),
                board_so_far(all, rows@, u, j + 1, board@),
                forall|i: int| 0 <= i < p ==> #[trigger] board@[i].total >= st.total,
            ensures
                p <= board.len(),
                forall|i: int| 0 <= i < p ==> #[trigger] board@[i].total >= st.total,
                p < board.len() ==> board@[p as int].total < st.total,
            decreases board.len() - p,
        {
            if p >= board.len() {
                break;
            }
            if board[p].total < st.total {
                break;
            }
            p = p + 1;
        }
        let ghost before = board@;
        proof {
            lemma_insert_line(all, rows@, u, j, before, p as int, st);
        }
        board.insert(p, st);
    }
    proof {
        assert forall|k: int| 0 <= k < all.len() implies boards_team_id(board@, #[trigger] all[k].id) by {
            assert(lists_team_id(u, all[k].id));
            let i = choose|i: int| 0 <= i < u.len() && #[trigger] u[i].id == all[k].id;
            assert(boards_team_id(board@, u[i].id));
        }
    }
    let best = best_scores_of(rows);
    Scoreboard { teams: board, best_scores: best }
}

/// Whether the scoreboard can be built from these teams and rows: every row
/// that scores belongs to a listed team, and no team's total leaves `i64`.
pub fn scoreboard_fits(teams: &Vec<Team>, rows: &Vec<ScoreRow>) -> (b: bool)
    ensures
        b == rows_fit(teams@, rows@),
{
    let ghost all = rows@;
    let mut totals: HashMap<i64, i64> = HashMap::new();
    let n = rows.len();
    for k in 0..n
        invariant
            n == all.len(),
            all == rows@,
            forall|id: i64| #[trigger] totals@.contains_key(id) ==> totals@[id] == team_total(all.take(k as int), id),
            forall|id: i64| !#[trigger] totals@.contains_key(id) ==> team_total(all.take(k as int), id) == 0,
            forall|j: int|
                0 <= j < k && row_score(#[trigger] all[j]) > 0 ==> lists_team_id(teams@, all[j].team_id),
    {
        let row = &rows[k];
        let ghost prev = all.take(k as int);
        let ghost next = all.take(k + 1);
        proof {
            assert(next.drop_last() =~= prev);
            assert(next.last() == all[k as int]);
        }
        let score: i64 = match row.max_score {
            Some(s) => s,
            None => 0,
        };
        if score > 0 {
            let id = row.team_id;
            let mut listed = false;
            let mut i: usize = 0;
            while i < teams.len()
                invariant
                    i <= teams.len(),
                    listed <==> exists|x: int| 0 <= x < i && #[trigger] teams@[x].id == id,
                decreases teams.len() - i,
            {
                if teams[i].id == id {
                    listed = true;
                }
                i = i + 1;
            }
            if !listed {
                proof {
                    assert(row_score(all[k as int]) > 0);
                }
                return false;
            }
            let current: i64 = match totals.get(&id) {
                Some(t) => *t,
                None => 0,
            };
            match current.checked_add(score) {
                Some(t) => {
                    totals.insert(id, t);
                },
                None => {
                    proof {
                        assert(team_total(next, id) > i64::MAX);
                        lemma_team_total_bounds(all, k + 1, id);
                    }
                    return false;
                },
            }
        }
    }
    proof {
        assert(all.take(n as int) =~= all);
        assert forall|id: i64| #[trigger] team_total(all, id) <= i64::MAX by {
            if totals@.contains_key(id) {
                assert(totals@[id] == team_total(all, id));
            }
        }
    }
    true
}

/// The best score of a problem is the highest score of its rows: every row
/// of the problem scores at most that much, and some row scores exactly that.
pub proof fn lemma_best_score_is_max(rows: Seq<ScoreRow>, problem_id: i64)
    ensures
        best_scores(rows).contains_key(problem_id) <==> exists|k: int|
            0 <= k < rows.len() && #[trigger] rows[k].problem_id == problem_id,
        best_scores(rows).contains_key(problem_id) ==> {
            &&& forall|k: int|
                0 <= k < rows.len() && #[trigger] rows[k].problem_id == problem_id ==> row_score(rows[k])
                    <= best_scores(rows)[problem_id]
            &&& exists|k: int|
                0 <= k < rows.len() && #[trigger] rows[k].problem_id == problem_id && row_score(rows[k])
                    == best_scores(rows)[problem_id]
        },
    decreases rows.len(),
{
    if rows.len() > 0 {
        let init = rows.drop_last();
        let last = rows.last();
        lemma_best_score_is_max(init, problem_id);
        assert forall|k: int| 0 <= k < init.len() implies init[k] == rows[k] by {}
        assert(rows[rows.len() - 1] == last);
        assert(row_score(last) as i64 == row_score(last));
        if best_scores(init).contains_key(problem_id) {
            let k = choose|k: int|
                0 <= k < init.len() && #[trigger] init[k].problem_id == problem_id && row_score(init[k])
                    == best_scores(init)[problem_id];
            assert(rows[k] == init[k]);
        }
        if exists|k: int| 0 <= k < rows.len() && #[trigger] rows[k].problem_id == problem_id {
            let k = choose|k: int| 0 <= k < rows.len() && #[trigger] rows[k].problem_id == problem_id;
            if k < init.len() {
                assert(init[k].problem_id == problem_id);
            }
        }
    }
}

/// A team's total is never negative, and each of its problem scores is
/// positive and at most its total.
pub proof fn lemma_total_covers_problem_scores(rows: Seq<ScoreRow>, team_id: i64)
    ensures
        team_total(rows, team_id) >= 0,
        forall|p: i64|
            #[trigger] team_problem_scores(rows, team_id).contains_key(p) ==> 0 < team_problem_scores(
                rows,
                team_id,
            )[p] <= team_total(rows, team_id),
    decreases rows.len(),
{
    if rows.len() > 0 {
        lemma_total_covers_problem_scores(rows.drop_last(), team_id);
        let r = rows.last();
        assert(row_score(r) > 0 ==> row_score(r) as i64 == row_score(r)) by {
            assert(r.max_score matches Some(s) ==> row_score(r) == s);
        }
        let m0 = team_problem_scores(rows.drop_last(), team_id);
        assert forall|p: i64| #[trigger] team_problem_scores(rows, team_id).contains_key(p) implies 0
            < team_problem_scores(rows, team_id)[p] <= team_total(rows, team_id) by {
            if r.team_id == team_id && row_score(r) > 0 && p == r.problem_id {
            } else {
                assert(m0.contains_key(p));
            }
        }
    }
}

/// A judgement of a submission, as the scoreboard reads it: the team and
/// problem of the submission, when it was made, and the judgement's score
/// and validity.
#[derive(Clone, Debug)]
pub struct JudgedSubmission {
    pub team_id: i64,
    pub problem_id: i64,
    pub created_at: Timestamp,
    pub score: Option<i64>,
    pub valid: bool,
}

/// Whether a judged submission counts on a scoreboard cut at `cutoff`: the
/// judgement is valid and the submission was made before the cutoff.
pub open spec fn counts(e: JudgedSubmission, cutoff: Timestamp) -> bool {
    e.valid && e.created_at.lt(cutoff)
}

/// The higher of two scores, a missing score giving way to any other.
pub open spec fn higher_score(a: Option<i64>, b: Option<i64>) -> Option<i64> {
    match (a, b) {
        (None, y) => y,
        (Some(x), None) => Some(x),
        (Some(x), Some(y)) => Some(if x >= y { x } else { y }),
    }
}

/// The best score of each (team, problem) pair over the judged submissions
/// that count: a pair is present once one of its judgements counts, and its
/// score is missing only where none of them has one.
pub open spec fn best_scores_before(es: Seq<JudgedSubmission>, cutoff: Timestamp) -> Map<(i64, i64), Option<i64>>
    decreases es.len(),
{
    if es.len() == 0 {
        Map::empty()
    } else {
        let m = best_scores_before(es.drop_last(), cutoff);
        let e = es.last();
        if !counts(e, cutoff) {
            m
        } else {
            let k = (e.team_id, e.problem_id);
            m.insert(k, higher_score(if m.contains_key(k) { m[k] } else { None }, e.score))
        }
    }
}

/// The rows that `score_rows` builds: for each counted judged submission
/// in order, the row of its (team, problem) pair is raised to the higher
/// score, or a new row for the pair is added at the end.
pub open spec fn score_rows_of(es: Seq<JudgedSubmission>, cutoff: Timestamp) -> Seq<ScoreRow>
    decreases es.len(),
{
    if es.len() == 0 {
        Seq::empty()
    } else {
        let rows = score_rows_of(es.drop_last(), cutoff);
        let e = es.last();
        if !counts(e, cutoff) {
            rows
        } else if exists|p: int| 0 <= p < rows.len() && #[trigger] row_key(rows[p]) == (e.team_id, e.problem_id) {
            let p = choose|p: int| 0 <= p < rows.len() && #[trigger] row_key(rows[p]) == (e.team_id, e.problem_id);
            rows.update(
                p,
                ScoreRow {
                    team_id: e.team_id,
                    problem_id: e.problem_id,
                    max_score: higher_score(rows[p].max_score, e.score),
                },
            )
        } else {
            rows.push(ScoreRow { team_id: e.team_id, problem_id: e.problem_id, max_score: e.score })
        }
    }
}

/// The team and problem of a row.
pub open spec fn row_key(r: ScoreRow) -> (i64, i64) {
    (r.team_id, r.problem_id)
}

/// The rows by their (team, problem) pair; a later row replaces an earlier
/// one with the same pair.
pub open spec fn rows_by_key(rows: Seq<ScoreRow>) -> Map<(i64, i64), Option<i64>>
    decreases rows.len(),
{
    if rows.len() == 0 {
        Map::empty()
    } else {
        rows_by_key(rows.drop_last()).insert(row_key(rows.last()), rows.last().max_score)
    }
}

/// Whether no two rows are for the same team and problem.
pub open spec fn distinct_keys(rows: Seq<ScoreRow>) -> bool {
    forall|i: int, j: int| 0 <= i < j < rows.len() ==> #[trigger] row_key(rows[i]) != #[trigger] row_key(rows[j])
}

proof fn lemma_rows_absent(rows: Seq<ScoreRow>, k: (i64, i64))
    requires
        forall|i: int| 0 <= i < rows.len() ==> #[trigger] row_key(rows[i]) != k,
    ensures
        !rows_by_key(rows).contains_key(k),
    decreases rows.len(),
{
    if rows.len() > 0 {
        assert forall|i: int| 0 <= i < rows.drop_last().len() implies #[trigger] row_key(rows.drop_last()[i]) != k by {
            assert(rows.drop_last()[i] == rows[i]);
        }
        lemma_rows_absent(rows.drop_last(), k);
        assert(rows[rows.len() - 1] == rows.last());
    }
}

proof fn lemma_rows_value(rows: Seq<ScoreRow>, p: int)
    requires
        distinct_keys(rows),
        0 <= p < rows.len(),
    ensures
        rows_by_key(rows).contains_key(row_key(rows[p])),
        rows_by_key(rows)[row_key(rows[p])] == rows[p].max_score,
    decreases rows.len(),
{
    let init = rows.drop_last();
    if p < rows.len() - 1 {
        assert(init[p] == rows[p]);
        assert forall|i: int, j: int| 0 <= i < j < init.len() implies #[trigger] row_key(init[i]) != #[trigger] row_key(init[j]) by {
            assert(init[i] == rows[i] && init[j] == rows[j]);
        }
        lemma_rows_value(init, p);
        assert(row_key(rows[p]) != row_key(rows[rows.len() - 1]));
    } else {
        assert(rows[p] == rows.last());
    }
}

proof fn lemma_rows_update(rows: Seq<ScoreRow>, p: int, r: ScoreRow)
    requires
        distinct_keys(rows),
        0 <= p < rows.len(),
        row_key(r) == row_key(rows[p]),
    ensures
        distinct_keys(rows.update(p, r)),
        rows_by_key(rows.update(p, r)) == rows_by_key(rows).insert(row_key(r), r.max_score),
    decreases rows.len(),
{
    let u = rows.update(p, r);
    assert forall|i: int, j: int| 0 <= i < j < u.len() implies #[trigger] row_key(u[i]) != #[trigger] row_key(u[j]) by {
        assert(row_key(u[i]) == row_key(rows[i]));
        assert(row_key(u[j]) == row_key(rows[j]));
    }
    let init = rows.drop_last();
    if p == rows.len() - 1 {
        assert(u.drop_last() =~= init);
        assert(u.last() == r);
        assert(rows_by_key(u) =~= rows_by_key(rows).insert(row_key(r), r.max_score));
    } else {
        assert forall|i: int, j: int| 0 <= i < j < init.len() implies #[trigger] row_key(init[i]) != #[trigger] row_key(init[j]) by {
            assert(init[i] == rows[i] && init[j] == rows[j]);
        }
        assert(init[p] == rows[p]);
        lemma_rows_update(init, p, r);
        assert(u.drop_last() =~= init.update(p, r));
        assert(u.last() == rows.last());
        assert(row_key(rows[p]) != row_key(rows[rows.len() - 1]));
        assert(rows_by_key(u) =~= rows_by_key(rows).insert(row_key(r), r.max_score));
    }
}

/// The higher of two scores.
fn higher(a: Option<i64>, b: Option<i64>) -> (r: Option<i64>)
    ensures
        r == higher_score(a, b),
{
    match (a, b) {
        (None, y) => y,
        (Some(x), None) => Some(x),
        (Some(x), Some(y)) => Some(if x >= y { x } else { y }),
    }
}

/// Whether score `a` is at most score `b`, a missing score being the
/// lowest.
pub open spec fn score_at_most(a: Option<i64>, b: Option<i64>) -> bool {
    match a {
        None => true,
        Some(x) => match b {
            Some(y) => x <= y,
            None => false,
        },
    }
}

/// Whether entry `i` is a judged submission that counts before the cutoff
/// for the (team, problem) pair `k`.
pub open spec fn counted_for(es: Seq<JudgedSubmission>, cutoff: Timestamp, i: int, k: (i64, i64)) -> bool {
    0 <= i < es.len() && counts(es[i], cutoff) && (es[i].team_id, es[i].problem_id) == k
}

/// Whether `best` is the best score of the counted entries for the pair
/// `k`: at least each of their scores, and one of them.
pub open spec fn best_of_pair(es: Seq<JudgedSubmission>, cutoff: Timestamp, k: (i64, i64), best: Option<i64>) -> bool {
    &&& forall|i: int| #[trigger] counted_for(es, cutoff, i, k) ==> score_at_most(es[i].score, best)
    &&& exists|i: int| #[trigger] counted_for(es, cutoff, i, k) && es[i].score == best
}

proof fn lemma_higher_score(a: Option<i64>, b: Option<i64>)
    ensures
        score_at_most(a, higher_score(a, b)),
        score_at_most(b, higher_score(a, b)),
        higher_score(a, b) == a || higher_score(a, b) == b,
{
}

/// The best scores are the maxima of the counted scores: a pair has a best
/// score exactly when some judgement for it counts, and that score is at
/// least the score of every counted judgement of the pair and is the score
/// of one of them.
pub proof fn lemma_best_before_is_max(es: Seq<JudgedSubmission>, cutoff: Timestamp, k: (i64, i64))
    ensures
        best_scores_before(es, cutoff).contains_key(k) <==> exists|i: int| #[trigger] counted_for(es, cutoff, i, k),
        best_scores_before(es, cutoff).contains_key(k) ==> best_of_pair(
            es,
            cutoff,
            k,
            best_scores_before(es, cutoff)[k],
        ),
    decreases es.len(),
{
    if es.len() > 0 {
        let init = es.drop_last();
        let last = es.len() - 1;
        let e = es.last();
        assert(es[last] == e);
        lemma_best_before_is_max(init, cutoff, k);
        let m = best_scores_before(init, cutoff);
        let b = best_scores_before(es, cutoff);
        assert forall|i: int| 0 <= i < init.len() implies (#[trigger] counted_for(es, cutoff, i, k)
            <==> counted_for(init, cutoff, i, k)) && es[i] == init[i] by {
            assert(es[i] == init[i]);
        }
        let here = counts(e, cutoff) && (e.team_id, e.problem_id) == k;
        assert(counted_for(es, cutoff, last, k) == here);
        if !here {
            assert(b.contains_key(k) == m.contains_key(k));
            if m.contains_key(k) {
                assert(b[k] == m[k]);
            }
            assert forall|i: int| #[trigger] counted_for(es, cutoff, i, k) implies counted_for(init, cutoff, i, k) by {
                assert(i != last);
            }
            if b.contains_key(k) {
                let j = choose|j: int| #[trigger] counted_for(init, cutoff, j, k) && init[j].score == m[k];
                assert(counted_for(es, cutoff, j, k));
            }
        } else {
            let prev = if m.contains_key(k) { m[k] } else { None };
            assert(b[k] == higher_score(prev, e.score));
            lemma_higher_score(prev, e.score);
            assert forall|i: int| #[trigger] counted_for(es, cutoff, i, k) implies score_at_most(es[i].score, b[k]) by {
                if i != last {
                    assert(counted_for(init, cutoff, i, k));
                    assert(score_at_most(init[i].score, m[k]));
                }
            }
            if b[k] == e.score {
                assert(counted_for(es, cutoff, last, k) && es[last].score == b[k]);
            } else {
                assert(m.contains_key(k));
                let j = choose|j: int| #[trigger] counted_for(init, cutoff, j, k) && init[j].score == m[k];
                assert(counted_for(es, cutoff, j, k));
            }
        }
    }
}

/// The best score of each team on each problem, from the judged
/// submissions that count before the cutoff: one row per (team, problem)
/// pair.
pub fn score_rows(entries: &Vec<JudgedSubmission>, cutoff: Timestamp) -> (rows: Vec<ScoreRow>)
    ensures
        distinct_keys(rows@),
        rows_by_key(rows@) == best_scores_before(entries@, cutoff),
        rows@ == score_rows_of(entries@, cutoff),
        forall|j: int|
            0 <= j < rows@.len() ==> best_of_pair(
                entries@,
                cutoff,
                row_key(#[trigger] rows@[j]),
                rows@[j].max_score,
            ),
        forall|i: int|
            0 <= i < entries@.len() && counts(#[trigger] entries@[i], cutoff) ==> has_row(
                rows@,
                entries@[i].team_id,
                entries@[i].problem_id,
            ),
{
    let mut rows: Vec<ScoreRow> = Vec::new();
    let n = entries.len();
    for k in 0..n
        invariant
            n == entries@.len(),
            distinct_keys(rows@),
            rows_by_key(rows@) == best_scores_before(entries@.take(k as int), cutoff),
            rows@ == score_rows_of(entries@.take(k as int), cutoff),
    {
        let e = &entries[k];
        proof {
            assert(entries@.take(k + 1).drop_last() =~= entries@.take(k as int));
            assert(entries@.take(k + 1).last() == entries@[k as int]);
        }
        if e.valid && e.created_at.is_before(&cutoff) {
            let mut p: usize = 0;
            let mut found = false;
            while p < rows.len()
                invariant
                    p <= rows.len(),
                    !found ==> forall|j: int| 0 <= j < p ==> #[trigger] row_key(rows@[j]) != (e.team_id, e.problem_id),
                    found ==> p < rows.len() && row_key(rows@[p as int]) == (e.team_id, e.problem_id),
                ensures
                    p <= rows.len(),
                    !found ==> p == rows.len() && forall|j: int| 0 <= j < p ==> #[trigger] row_key(rows@[j]) != (e.team_id, e.problem_id),
                    found ==> p < rows.len() && row_key(rows@[p as int]) == (e.team_id, e.problem_id),
                decreases rows.len() - p,
            {
                if rows[p].team_id == e.team_id && rows[p].problem_id == e.problem_id {
                    found = true;
                    break;
                }
                p = p + 1;
            }
            if found {
                proof {
                    lemma_rows_value(rows@, p as int);
                }
                let best = higher(rows[p].max_score, e.score);
                let r = ScoreRow { team_id: e.team_id, problem_id: e.problem_id, max_score: best };
                proof {
                    lemma_rows_update(rows@, p as int, r);
                    let q = choose|q: int| 0 <= q < rows@.len() && #[trigger] row_key(rows@[q]) == (e.team_id, e.problem_id);
                    assert(row_key(rows@[p as int]) == (e.team_id, e.problem_id));
                    if q != p as int {
                        if q < p as int {
                            assert(row_key(rows@[q]) != row_key(rows@[p as int]));
                        } else {
                            assert(row_key(rows@[p as int]) != row_key(rows@[q]));
                        }
                    }
                }
                rows.set(p, r);
            } else {
                proof {
                    lemma_rows_absent(rows@, (e.team_id, e.problem_id));
                }
                let ghost before = rows@;
                rows.push(ScoreRow { team_id: e.team_id, problem_id: e.problem_id, max_score: e.score });
                proof {
                    assert(rows@.drop_last() =~= before);
                    assert forall|i: int, j: int| 0 <= i < j < rows@.len() implies #[trigger] row_key(rows@[i])
                        != #[trigger] row_key(rows@[j]) by {
                        if j < before.len() {
                            assert(rows@[i] == before[i] && rows@[j] == before[j]);
                        } else {
                            assert(rows@[i] == before[i]);
                        }
                    }
                }
            }
        }
    }
    proof {
        assert(entries@.take(n as int) =~= entries@);
        assert forall|j: int| 0 <= j < rows@.len() implies best_of_pair(
            entries@,
            cutoff,
            row_key(#[trigger] rows@[j]),
            rows@[j].max_score,
        ) by {
            lemma_rows_value(rows@, j);
            lemma_best_before_is_max(entries@, cutoff, row_key(rows@[j]));
        }
        assert forall|i: int| 0 <= i < entries@.len() && counts(#[trigger] entries@[i], cutoff) implies has_row(
            rows@,
            entries@[i].team_id,
            entries@[i].problem_id,
        ) by {
            let k = (entries@[i].team_id, entries@[i].problem_id);
            assert(counted_for(entries@, cutoff, i, k));
            lemma_best_before_is_max(entries@, cutoff, k);
            if !has_row(rows@, k.0, k.1) {
                lemma_rows_absent(rows@, k);
            }
        }
    }
    rows
}

/// Judged submissions that do not count before the cutoff (invalid
/// judgements, submissions made at or after it) change nothing: the best
/// scores are those of the counted ones alone.
pub proof fn lemma_uncounted_change_nothing(es: Seq<JudgedSubmission>, cutoff: Timestamp)
    ensures
        best_scores_before(es, cutoff) == best_scores_before(
            es.filter(|e: JudgedSubmission| counts(e, cutoff)),
            cutoff,
        ),
    decreases es.len(),
{
    reveal_with_fuel(Seq::filter, 1);
    if es.len() > 0 {
        let pred = |e: JudgedSubmission| counts(e, cutoff);
        let init = es.drop_last();
        lemma_uncounted_change_nothing(init, cutoff);
        let fi = init.filter(pred);
        if counts(es.last(), cutoff) {
            assert(es.filter(pred) == fi.push(es.last()));
            assert(fi.push(es.last()).drop_last() =~= fi);
        } else {
            assert(es.filter(pred) == fi);
        }
    }
}

/// Judged submissions that do not count before the cutoff change nothing in
/// the rows either: they are the rows of the counted ones alone.
pub proof fn lemma_uncounted_change_no_rows(es: Seq<JudgedSubmission>, cutoff: Timestamp)
    ensures
        score_rows_of(es, cutoff) == score_rows_of(es.filter(|e: JudgedSubmission| counts(e, cutoff)), cutoff),
    decreases es.len(),
{
    reveal_with_fuel(Seq::filter, 1);
    if es.len() > 0 {
        let pred = |e: JudgedSubmission| counts(e, cutoff);
        let init = es.drop_last();
        lemma_uncounted_change_no_rows(init, cutoff);
        let fi = init.filter(pred);
        if counts(es.last(), cutoff) {
            assert(es.filter(pred) == fi.push(es.last()));
            assert(fi.push(es.last()).drop_last() =~= fi);
        } else {
            assert(es.filter(pred) == fi);
        }
    }
}

/// Whether two lines show the same team, total and problem scores.
pub open spec fn same_line(a: TeamStanding, b: TeamStanding) -> bool {
    a.team == b.team && a.total == b.total && a.problem_scores@ == b.problem_scores@
}

/// Whether the board has a line that shows the same as `a`.
pub open spec fn shows_line(board: Seq<TeamStanding>, a: TeamStanding) -> bool {
    exists|j: int| 0 <= j < board.len() && same_line(a, #[trigger] board[j])
}

/// Two boards that rank the same teams on the same rows hold the same
/// lines: every line of the first has a line of the second that shows the
/// same team, total and problem scores.
pub proof fn lemma_ranked_boards_agree(
    teams: Seq<Team>,
    rows: Seq<ScoreRow>,
    b1: Seq<TeamStanding>,
    b2: Seq<TeamStanding>,
)
    requires
        ranks(teams, rows, b1),
        ranks(teams, rows, b2),
    ensures
        forall|i: int| 0 <= i < b1.len() ==> shows_line(b2, #[trigger] b1[i]),
{
    assert forall|i: int| 0 <= i < b1.len() implies shows_line(b2, #[trigger] b1[i]) by {
        let x = b1[i];
        assert(standing_ok(teams, rows, x));
        let id = x.team.id;
        lemma_last_team_found(teams, id);
        let k = choose|k: int| 0 <= k < teams.len() && teams[k] == x.team;
        assert(boards_team_id(b2, teams[k].id));
        let j = choose|j: int| 0 <= j < b2.len() && #[trigger] b2[j].team.id == teams[k].id;
        assert(standing_ok(teams, rows, b2[j]));
        assert(same_line(x, b2[j]));
    }
}

/// A frozen scoreboard shows a visitor nothing submitted at or after the
/// freeze: for two sets of judged submissions that agree on what counts
/// before the freeze, the rows are the same, so one board can be built
/// (`rows_fit`) exactly when the other can, and the best score of each
/// problem and the lines of the boards ranked on them are the same.
pub proof fn lemma_frozen_board_same_standings(
    es1: Seq<JudgedSubmission>,
    es2: Seq<JudgedSubmission>,
    contest: &Contest,
    viewer: Option<&User>,
    now: Timestamp,
    teams: Seq<Team>,
    b1: Seq<TeamStanding>,
    b2: Seq<TeamStanding>,
)
    requires
        !sees_unfrozen(viewer),
        contest.freeze_at is Some,
        es1.filter(|e: JudgedSubmission| counts(e, contest.freeze_at.unwrap())) == es2.filter(
            |e: JudgedSubmission| counts(e, contest.freeze_at.unwrap()),
        ),
        ranks(teams, score_rows_of(es1, cutoff(contest, viewer, now)), b1),
        ranks(teams, score_rows_of(es2, cutoff(contest, viewer, now)), b2),
    ensures
        cutoff(contest, viewer, now) == contest.freeze_at.unwrap(),
        score_rows_of(es1, cutoff(contest, viewer, now)) == score_rows_of(es2, cutoff(contest, viewer, now)),
        rows_fit(teams, score_rows_of(es1, cutoff(contest, viewer, now))) == rows_fit(
            teams,
            score_rows_of(es2, cutoff(contest, viewer, now)),
        ),
        best_scores(score_rows_of(es1, cutoff(contest, viewer, now))) == best_scores(
            score_rows_of(es2, cutoff(contest, viewer, now)),
        ),
        forall|i: int| 0 <= i < b1.len() ==> shows_line(b2, #[trigger] b1[i]),
        forall|j: int| 0 <= j < b2.len() ==> shows_line(b1, #[trigger] b2[j]),
{
    let f = contest.freeze_at.unwrap();
    lemma_uncounted_change_no_rows(es1, f);
    lemma_uncounted_change_no_rows(es2, f);
    let rows = score_rows_of(es1, f);
    lemma_ranked_boards_agree(teams, rows, b1, b2);
    lemma_ranked_boards_agree(teams, rows, b2, b1);
}

/// A frozen scoreboard shows a visitor nothing submitted at or after the
/// freeze: two sets of judged submissions that agree on what counts before
/// the freeze give the same best scores.
pub proof fn lemma_frozen_board_hides_late_submissions(
    es1: Seq<JudgedSubmission>,
    es2: Seq<JudgedSubmission>,
    contest: &Contest,
    viewer: Option<&User>,
    now: Timestamp,
)
    requires
        !sees_unfrozen(viewer),
        contest.freeze_at is Some,
        es1.filter(|e: JudgedSubmission| counts(e, contest.freeze_at.unwrap())) == es2.filter(
            |e: JudgedSubmission| counts(e, contest.freeze_at.unwrap()),
        ),
    ensures
        cutoff(contest, viewer, now) == contest.freeze_at.unwrap(),
        best_scores_before(es1, cutoff(contest, viewer, now)) == best_scores_before(
            es2,
            cutoff(contest, viewer, now),
        ),
{
    let f = contest.freeze_at.unwrap();
    lemma_uncounted_change_nothing(es1, f);
    lemma_uncounted_change_nothing(es2, f);
}

/// The sum of a map's values over a list of its keys.
pub open spec fn sum_over(m: Map<i64, i64>, keys: Seq<i64>) -> int
    decreases keys.len(),
{
    if keys.len() == 0 {
        0
    } else {
        sum_over(m, keys.drop_last()) + m[keys.last()]
    }
}

/// The problems on which a team scores, in the order of its rows.
pub open spec fn scored_problems(rows: Seq<ScoreRow>, team_id: i64) -> Seq<i64>
    decreases rows.len(),
{
    if rows.len() == 0 {
        Seq::empty()
    } else {
        let ps = scored_problems(rows.drop_last(), team_id);
        let r = rows.last();
        if r.team_id == team_id && row_score(r) > 0 {
            ps.push(r.problem_id)
        } else {
            ps
        }
    }
}

/// Whether some row is for this team and problem.
pub open spec fn has_row(rows: Seq<ScoreRow>, team_id: i64, problem_id: i64) -> bool {
    exists|i: int| 0 <= i < rows.len() && #[trigger] row_key(rows[i]) == (team_id, problem_id)
}

proof fn lemma_sum_over_insert(m: Map<i64, i64>, keys: Seq<i64>, p: i64, v: i64)
    requires
        !keys.contains(p),
    ensures
        sum_over(m.insert(p, v), keys) == sum_over(m, keys),
    decreases keys.len(),
{
    if keys.len() > 0 {
        assert(!keys.drop_last().contains(p)) by {
            if keys.drop_last().contains(p) {
                let i = choose|i: int| 0 <= i < keys.drop_last().len() && keys.drop_last()[i] == p;
                assert(keys[i] == p);
            }
        }
        lemma_sum_over_insert(m, keys.drop_last(), p, v);
        assert(keys[keys.len() - 1] == keys.last());
    }
}

/// With one row per team and problem, a team's total is the sum of its
/// problem scores: its scored problems list each problem of its score map
/// exactly once, and their scores add up to its total.
pub proof fn lemma_total_is_sum_of_problem_scores(rows: Seq<ScoreRow>, team_id: i64)
    requires
        distinct_keys(rows),
    ensures
        scored_problems(rows, team_id).no_duplicates(),
        forall|p: i64|
            #[trigger] team_problem_scores(rows, team_id).contains_key(p) <==> scored_problems(
                rows,
                team_id,
            ).contains(p),
        team_total(rows, team_id) == sum_over(
            team_problem_scores(rows, team_id),
            scored_problems(rows, team_id),
        ),
        forall|j: int|
            0 <= j < scored_problems(rows, team_id).len() ==> has_row(
                rows,
                team_id,
                #[trigger] scored_problems(rows, team_id)[j],
            ),
    decreases rows.len(),
{
    if rows.len() > 0 {
        let init = rows.drop_last();
        assert forall|i: int, j: int| 0 <= i < j < init.len() implies #[trigger] row_key(init[i])
            != #[trigger] row_key(init[j]) by {
            assert(init[i] == rows[i] && init[j] == rows[j]);
        }
        lemma_total_is_sum_of_problem_scores(init, team_id);
        let r = rows.last();
        assert(rows[rows.len() - 1] == r);
        let ps = scored_problems(init, team_id);
        let m = team_problem_scores(init, team_id);
        assert forall|j: int| 0 <= j < ps.len() implies has_row(rows, team_id, #[trigger] ps[j]) by {
            assert(has_row(init, team_id, ps[j]));
            let i = choose|i: int| 0 <= i < init.len() && #[trigger] row_key(init[i]) == (team_id, ps[j]);
            assert(rows[i] == init[i]);
        }
        if r.team_id == team_id && row_score(r) > 0 {
            let p = r.problem_id;
            assert(row_score(r) as i64 == row_score(r)) by {
                assert(r.max_score matches Some(s) ==> row_score(r) == s);
            }
            assert(!ps.contains(p)) by {
                if ps.contains(p) {
                    let j = choose|j: int| 0 <= j < ps.len() && ps[j] == p;
                    assert(has_row(init, team_id, ps[j]));
                    let i = choose|i: int| 0 <= i < init.len() && #[trigger] row_key(init[i]) == (team_id, ps[j]);
                    assert(rows[i] == init[i]);
                    assert(row_key(rows[i]) == row_key(rows[rows.len() - 1]));
                }
            }
            lemma_sum_over_insert(m, ps, p, row_score(r) as i64);
            let ps2 = ps.push(p);
            assert(ps2.drop_last() =~= ps);
            assert forall|j: int| 0 <= j < ps2.len() implies has_row(rows, team_id, #[trigger] ps2[j]) by {
                if j < ps.len() {
                    assert(ps2[j] == ps[j]);
                    assert(has_row(rows, team_id, ps[j]));
                } else {
                    assert(row_key(rows[rows.len() - 1]) == (team_id, ps2[j]));
                }
            }
            assert forall|a: int, b: int| 0 <= a < ps2.len() && 0 <= b < ps2.len() && a != b implies ps2[a]
                != ps2[b] by {
                if a < ps.len() && b < ps.len() {
                } else if a < ps.len() {
                    assert(ps.contains(ps2[a]));
                } else {
                    assert(ps.contains(ps2[b]));
                }
            }
            assert forall|q: i64| #[trigger] team_problem_scores(rows, team_id).contains_key(q) <==> ps2.contains(q) by {
                if q == p {
                    assert(ps2[ps.len() as int] == q);
                } else {
                    if ps2.contains(q) {
                        let j = choose|j: int| 0 <= j < ps2.len() && ps2[j] == q;
                        assert(j < ps.len());
                        assert(ps[j] == q);
                    }
                    if ps.contains(q) {
                        let j = choose|j: int| 0 <= j < ps.len() && ps[j] == q;
                        assert(ps2[j] == q);
                    }
                }
            }
        }
    }
}

/// Whether the viewer is an administrator, who sees the scoreboard unfrozen.
pub open spec fn sees_unfrozen(viewer: Option<&User>) -> bool {
    viewer matches Some(u) && u.rights >= ADMIN_RIGHTS
}

/// The stored instant that bounds the counted submissions, if the contest
/// has one: the end for administrators, the freeze for everybody else.
pub open spec fn stored_cutoff(contest: &Contest, viewer: Option<&User>) -> Option<Timestamp> {
    if sees_unfrozen(viewer) {
        contest.end_at
    } else {
        contest.freeze_at
    }
}

/// The instant before which submissions count on the scoreboard: the
/// stored cutoff, or the current instant where the contest has none.
pub open spec fn cutoff(contest: &Contest, viewer: Option<&User>, now: Timestamp) -> Timestamp {
    match stored_cutoff(contest, viewer) {
        Some(t) => t,
        None => now,
    }
}

/// The instant before which submissions count, given the current instant.
pub fn cutoff_at(contest: &Contest, viewer: Option<&User>, now: Timestamp) -> (t: Timestamp)
    ensures
        t == cutoff(contest, viewer, now),
{
    let admin = match viewer {
        Some(u) => u.rights >= ADMIN_RIGHTS,
        None => false,
    };
    let stored = if admin {
        contest.end_at
    } else {
        contest.freeze_at
    };
    match stored {
        Some(t) => t,
        None => now,
    }
}

/// The instant before which submissions count, reading the clock where the
/// contest stores none for this viewer; `None` where the clock cannot be
/// read.
pub fn scoreboard_cutoff(contest: &Contest, viewer: Option<&User>) -> (t: Option<Timestamp>)
    ensures
        stored_cutoff(contest, viewer) matches Some(s) ==> t == Some(s),
        stored_cutoff(contest, viewer) is None ==> (t matches Some(x) ==> read_from_clock(x)),
{
    let admin = match viewer {
        Some(u) => u.rights >= ADMIN_RIGHTS,
        None => false,
    };
    let stored = if admin {
        contest.end_at
    } else {
        contest.freeze_at
    };
    match stored {
        Some(t) => Some(t),
        None => now(),
    }
}

} // verus!
