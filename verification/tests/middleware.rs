use stratum::http::{ErrorKind, HttpError};
use stratum::middleware::{CheckContestStarted, CheckRights, ContestBinder, DataBinder};
use stratum::models::{Contest, Team, User, ADMIN_RIGHTS};
use stratum::time::Timestamp;

fn ts(secs: i64) -> Timestamp {
    Timestamp::new(secs, 0).unwrap()
}

fn user(rights: i16) -> User {
    User {
        id: 3,
        team_id: Some(8),
        username: "ada".to_string(),
        password_hash: String::new(),
        rights,
        created_at: ts(0),
        updated_at: ts(0),
    }
}

fn contest(start: Option<i64>) -> Contest {
    Contest {
        id: 4,
        name: "Spring Cup".to_string(),
        short_name: "spring".to_string(),
        start_at: start.map(ts),
        freeze_at: None,
        end_at: None,
        created_at: ts(0),
        updated_at: ts(0),
    }
}

fn err<T>(r: Result<T, HttpError>) -> HttpError {
    match r {
        Ok(_) => panic!("expected a refusal"),
        Err(e) => e,
    }
}

#[test]
fn rights_check_admits_enough_rights() {
    let check = CheckRights { min_rights: ADMIN_RIGHTS };
    assert!(check.start(Some(&user(1000))).is_ok());
    assert!(check.start(Some(&user(i16::MAX))).is_ok());
    let e = err(check.start(Some(&user(999))));
    assert_eq!(e.kind, ErrorKind::NotFound);
    assert_eq!(e.message, "");
}

#[test]
fn rights_check_hides_the_page_from_visitors() {
    let check = CheckRights { min_rights: 1 };
    let e = err(check.start(None));
    assert_eq!(e.kind, ErrorKind::NotFound);
    assert_eq!(e.message, "");
    assert!(check.start(Some(&user(1))).is_ok());
    assert!(err(check.start(Some(&user(0)))).kind == ErrorKind::NotFound);
}

#[test]
fn fewer_rights_asked_admit_more_users() {
    let strict = CheckRights { min_rights: 1000 };
    let lenient = CheckRights { min_rights: 1 };
    let admin = user(1000);
    assert!(strict.start(Some(&admin)).is_ok());
    assert!(lenient.start(Some(&admin)).is_ok());
}

#[test]
fn started_contest_lets_requests_in() {
    let gate = CheckContestStarted;
    let c = contest(Some(1_000));
    assert!(gate.check_at(Some(&c), ts(1_000)).is_ok());
    assert!(gate.check_at(Some(&c), ts(5_000)).is_ok());
}

#[test]
fn contest_before_its_start_is_forbidden_with_the_start_time() {
    let gate = CheckContestStarted;
    let c = contest(Some(1_556_712_000));
    let e = err(gate.check_at(Some(&c), ts(1_556_711_999)));
    assert_eq!(e.kind, ErrorKind::Forbidden);
    assert_eq!(e.message, "This contest will start at 2019-05-01 12:00:00 UTC");
}

#[test]
fn unpublished_or_missing_contest_is_not_found() {
    let gate = CheckContestStarted;
    let e = err(gate.check_at(Some(&contest(None)), ts(5)));
    assert_eq!(e.kind, ErrorKind::NotFound);
    assert_eq!(e.message, "");
    let e = err(gate.check_at(None, ts(5)));
    assert_eq!(e.kind, ErrorKind::NotFound);
    assert_eq!(e.message, "");
}

#[test]
fn contest_gate_reads_the_clock() {
    let gate = CheckContestStarted;
    assert!(gate.start(Some(&contest(Some(0)))).is_ok());
    let far = contest(Some(4_102_444_800));
    let e = err(gate.start(Some(&far)));
    assert_eq!(e.kind, ErrorKind::Forbidden);
    assert_eq!(e.message, "This contest will start at 2100-01-01 00:00:00 UTC");
    assert_eq!(err(gate.start(None)).kind, ErrorKind::NotFound);
}

#[test]
fn open_contest_stays_open_later() {
    let gate = CheckContestStarted;
    let c = contest(Some(100));
    assert!(gate.check_at(Some(&c), ts(100)).is_ok());
    assert!(gate.check_at(Some(&c), ts(101)).is_ok());
    assert!(gate.check_at(Some(&c), Timestamp::new(100, 1).unwrap()).is_ok());
}

#[test]
fn contest_names_are_looked_up_lowercased() {
    let binder = ContestBinder;
    assert_eq!(binder.start("Spring-CUP"), "spring-cup");
    assert_eq!(binder.start("spring"), "spring");
}

#[test]
fn contest_binder_answers_the_lookup() {
    let binder = ContestBinder;
    let c = binder.bind(Some(contest(Some(1)))).ok().unwrap();
    assert_eq!(c.id, 4);
    let e = err(binder.bind(None));
    assert_eq!(e.kind, ErrorKind::NotFound);
    assert_eq!(e.message, "Could not find contest with this name");
}

#[test]
fn data_binder_binds_user_and_team() {
    let binder = DataBinder;
    let t = Team { id: 8, name: "octo".to_string(), created_at: ts(0), updated_at: ts(0) };
    let (u, team) = binder.bind(Some((user(1), Some(t))));
    assert_eq!(u.unwrap().username, "ada");
    assert_eq!(team.unwrap().name, "octo");
    let (u, team) = binder.bind(Some((user(1), None)));
    assert!(u.is_some());
    assert!(team.is_none());
    let (u, team) = binder.bind(None);
    assert!(u.is_none() && team.is_none());
}
