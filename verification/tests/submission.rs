use stratum::http::{ErrorKind, HttpError};
use stratum::judgement::JudgementStatus;
use stratum::models::{Judgement, TestCaseJudgement};
use stratum::multipart::{parse_multipart, FieldDisposition, FormPart, MultipartForm};
use stratum::submission::{
    authorize_view, group_judgements, plan_submissions, SubmissionPlan, Utf8TestCaseJudgement,
};
use stratum::time::Timestamp;

fn ts(secs: i64) -> Timestamp {
    Timestamp::new(secs, 0).unwrap()
}

fn part(name: &str, filename: Option<&str>, content: &[u8]) -> FormPart {
    FormPart {
        mime: "text/plain".to_string(),
        disposition: Some(FieldDisposition {
            name: Some(name.to_string()),
            filename: filename.map(|n| n.to_string()),
        }),
        content: content.to_vec(),
    }
}

fn form(parts: Vec<FormPart>) -> Result<MultipartForm, HttpError> {
    parse_multipart(parts)
}

fn plan(team: Option<i64>, parts: Vec<FormPart>) -> Result<SubmissionPlan, HttpError> {
    plan_submissions(team, form(parts))
}

fn ok(r: Result<SubmissionPlan, HttpError>) -> SubmissionPlan {
    match r {
        Ok(p) => p,
        Err(e) => panic!("refused: {}", e.message),
    }
}

fn err<T>(r: Result<T, HttpError>) -> HttpError {
    match r {
        Ok(_) => panic!("expected a refusal"),
        Err(e) => e,
    }
}

#[test]
fn each_filled_problem_field_is_a_submission() {
    let p = ok(plan(
        Some(5),
        vec![
            part("source_code", Some("main.rs"), b"fn main() {}"),
            part("problem_file42", Some("a.in"), b"1 2"),
            part("problem_file43", None, b"3 4"),
        ],
    ));
    assert_eq!(p.team_id, 5);
    assert_eq!(p.source_name, "main.rs");
    assert_eq!(p.form.entries()[p.source_index].0, "source_code");
    let steps: Vec<(usize, i64, String, bool)> = p
        .steps
        .iter()
        .map(|s| (s.field_index, s.problem_id, s.entry_point.clone(), s.attach_source))
        .collect();
    assert_eq!(
        steps,
        vec![(1, 42, "a.in".to_string(), true), (2, 43, "textfile".to_string(), false)]
    );
    assert!(p.failure.is_none());
}

#[test]
fn empty_files_are_not_submitted() {
    let p = ok(plan(
        Some(5),
        vec![part("problem_file42", Some("a.in"), b""), part("source_code", None, b"x")],
    ));
    assert!(p.steps.is_empty());
    assert_eq!(p.source_name, "source");
    assert!(p.failure.is_none());
}

#[test]
fn submitting_needs_a_team() {
    let e = err(plan(None, vec![part("source_code", None, b"x")]));
    assert_eq!(e.kind, ErrorKind::Forbidden);
    assert_eq!(e.message, "You are not allowed to submit as you are not in a team");
}

#[test]
fn submitting_needs_the_source() {
    let e = err(plan(Some(1), vec![part("problem_file42", None, b"1")]));
    assert_eq!(e.kind, ErrorKind::BadRequest);
    assert_eq!(e.message, "Could not find source_code");
}

#[test]
fn a_refused_form_is_passed_on() {
    let parts = vec![FormPart {
        mime: "text/plain".to_string(),
        disposition: Some(FieldDisposition { name: None, filename: None }),
        content: b"1".to_vec(),
    }];
    let e = err(plan(Some(1), parts));
    assert_eq!(e.kind, ErrorKind::BadRequest);
    assert_eq!(e.message, "Missing form name in ContentDisposition");
}

#[test]
fn a_short_field_name_stops_the_form() {
    let p = ok(plan(
        Some(1),
        vec![
            part("source_code", None, b"x"),
            part("problem_file7", None, b"1"),
            part("short", None, b"2"),
            part("problem_file8", None, b"3"),
        ],
    ));
    assert_eq!(p.steps.len(), 1);
    assert_eq!(p.steps[0].problem_id, 7);
    let e = p.failure.unwrap();
    assert_eq!(e.kind, ErrorKind::BadRequest);
    assert_eq!(e.message, "Form field not matching pattern: short");
}

#[test]
fn a_field_name_without_a_number_stops_the_form() {
    let p = ok(plan(Some(1), vec![part("source_code", None, b"x"), part("problem_fileXY", None, b"1")]));
    assert!(p.steps.is_empty());
    assert_eq!(p.failure.unwrap().message, "invalid digit found in string");
    let p = ok(plan(Some(1), vec![part("source_code", None, b"x"), part("problem_file", None, b"1")]));
    assert_eq!(p.failure.unwrap().message, "cannot parse integer from empty string");
}

#[test]
fn viewers_see_only_their_own_submissions() {
    assert!(authorize_view(Some(3), 3).is_ok());
    let e = err(authorize_view(Some(3), 4));
    assert_eq!(e.kind, ErrorKind::NotFound);
    assert_eq!(e.message, "Could not find this submission");
    let e = err(authorize_view(None, 4));
    assert_eq!(e.kind, ErrorKind::Forbidden);
    assert_eq!(e.message, "You are not allowed to submit as you are not in a team");
}

fn judgement(id: i64, grader: i32, sub: i64, loc: i32) -> Judgement {
    Judgement {
        id,
        grader_id: grader,
        submission_id: sub,
        submission_location_id: loc,
        status: JudgementStatus::Accepted.code(),
        score: Some(id),
        valid: true,
        created_at: ts(0),
        updated_at: ts(0),
    }
}

#[test]
fn judgements_are_grouped_by_submission_and_location() {
    let js = vec![
        judgement(1, 1, 10, 0),
        judgement(2, 2, 10, 0),
        judgement(3, 1, 10, 1),
        judgement(4, 1, 11, 0),
    ];
    let m = group_judgements(js);
    assert_eq!(m.len(), 2);
    let ten = &m[&10];
    assert_eq!(ten.len(), 2);
    let ids: Vec<i64> = ten[&0].iter().map(|j| j.id).collect();
    assert_eq!(ids, vec![1, 2]);
    assert_eq!(ten[&1].iter().map(|j| j.id).collect::<Vec<_>>(), vec![3]);
    assert_eq!(m[&11][&0].iter().map(|j| j.id).collect::<Vec<_>>(), vec![4]);
    assert!(group_judgements(Vec::new()).is_empty());
}

#[test]
fn test_case_results_are_read_as_text() {
    let t = TestCaseJudgement {
        judgement_id: 1,
        judgement_grader_id: 2,
        test_case_position: 3,
        status_code: 42,
        output: "héllo\n".as_bytes().to_vec(),
        error: Vec::new(),
        created_at: ts(9),
    };
    let u = Utf8TestCaseJudgement::from_judgement(t);
    assert_eq!(u.output, "héllo\n");
    assert_eq!(u.error, "");
    assert_eq!((u.judgement_id, u.judgement_grader_id, u.test_case_position, u.status_code), (1, 2, 3, 42));
    assert_eq!(u.created_at, ts(9));
}

#[test]
fn every_submitted_field_is_planned_when_all_names_parse() {
    let p = ok(plan(
        Some(2),
        vec![
            part("problem_file1", None, b"a"),
            part("source_code", None, b"x"),
            part("problem_file2", None, b""),
            part("problem_file3", Some("c.txt"), b"c"),
        ],
    ));
    assert!(p.failure.is_none());
    let ids: Vec<i64> = p.steps.iter().map(|s| s.problem_id).collect();
    assert_eq!(ids, vec![1, 3]);
    assert!(p.steps[0].attach_source && !p.steps[1].attach_source);
}
