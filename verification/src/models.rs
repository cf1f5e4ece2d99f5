//! The records that the platform keeps, as the library sees them.

use vstd::prelude::*;
use crate::time::Timestamp;

verus! {

/// The rights a user needs to reach the administration pages.
pub const ADMIN_RIGHTS: i16 = 1000i16;

/// A problem as it appears in a contest, under a label.
#[derive(Clone, Debug)]
pub struct ContestProblem {
    pub contest_id: i64,
    pub problem_id: i64,
    pub label: String,
}

/// A contest. It is published once it has a start time.
#[derive(Clone, Debug)]
pub struct Contest {
    pub id: i64,
    pub name: String,
    pub short_name: String,
    pub start_at: Option<Timestamp>,
    pub freeze_at: Option<Timestamp>,
    pub end_at: Option<Timestamp>,
    pub created_at: Timestamp,
    pub updated_at: Timestamp,
}

/// A problem.
#[derive(Clone, Debug)]
pub struct Problem {
    pub id: i64,
    pub name: String,
    pub created_at: Timestamp,
    pub updated_at: Timestamp,
}

/// A team of users.
#[derive(Clone, Debug)]
pub struct Team {
    pub id: i64,
    pub name: String,
    pub created_at: Timestamp,
    pub updated_at: Timestamp,
}

/// A user, with the rights that decide what the user may do.
#[derive(Clone, Debug)]
pub struct User {
    pub id: i64,
    pub team_id: Option<i64>,
    pub username: String,
    pub password_hash: String,
    pub rights: i16,
    pub created_at: Timestamp,
    pub updated_at: Timestamp,
}

/// A signed-in session: the cookie key (a UUID as a 128-bit number) and
/// its user.
#[derive(Clone, Debug)]
pub struct Session {
    pub key: u128,
    pub user_id: i64,
    pub created_at: Timestamp,
}

/// The judgement of a submission by one grader.
#[derive(Clone, Debug)]
pub struct Judgement {
    pub id: i64,
    pub grader_id: i32,
    pub submission_id: i64,
    pub submission_location_id: i32,
    pub status: i32,
    pub score: Option<i64>,
    pub valid: bool,
    pub created_at: Timestamp,
    pub updated_at: Timestamp,
}

/// What one test run of a judgement gave, as stored.
#[derive(Clone, Debug)]
pub struct TestCaseJudgement {
    pub judgement_id: i64,
    pub judgement_grader_id: i32,
    pub test_case_position: i32,
    pub status_code: i32,
    pub output: Vec<u8>,
    pub error: Vec<u8>,
    pub created_at: Timestamp,
}

} // verus!
