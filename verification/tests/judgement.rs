use stratum::judgement::{
    grade, parse_score, try_grade, JudgementStatus, ScoreError, TestRun, Verdict,
    ACCEPTED_EXIT, WRONG_ANSWER_EXIT,
};

fn run(code: i32, out: &[u8]) -> TestRun {
    TestRun { status_code: code, output: out.to_vec() }
}

#[test]
fn status_codes_are_stored_values() {
    assert_eq!(JudgementStatus::Queued.code(), 0);
    assert_eq!(JudgementStatus::InProgress.code(), 1);
    assert_eq!(JudgementStatus::Accepted.code(), 100);
    assert_eq!(JudgementStatus::WrongAnswer.code(), 110);
    assert_eq!(JudgementStatus::JudgingError.code(), 200);
}

#[test]
fn status_codes_lie_in_their_bands() {
    assert!((0..=99).contains(&JudgementStatus::Queued.code()));
    assert!((0..=99).contains(&JudgementStatus::InProgress.code()));
    assert!((100..=109).contains(&JudgementStatus::Accepted.code()));
    assert!((110..=199).contains(&JudgementStatus::WrongAnswer.code()));
    assert!(JudgementStatus::JudgingError.code() >= 200);
}

#[test]
fn parse_score_trims_and_reads() {
    assert_eq!(parse_score(&b"  17\n".to_vec()), Ok(17));
    assert_eq!(parse_score(&b"-3".to_vec()), Ok(-3));
    assert_eq!(parse_score(&b"seventeen".to_vec()), Err(ScoreError::NotAnInteger));
    assert_eq!(parse_score(&b"".to_vec()), Err(ScoreError::NotAnInteger));
    assert_eq!(parse_score(&vec![0xff, 0x31]), Err(ScoreError::NotUtf8));
}

#[test]
fn all_accepted_runs_sum_their_scores() {
    let runs = vec![run(ACCEPTED_EXIT, b"10\n"), run(ACCEPTED_EXIT, b" 5 "), run(ACCEPTED_EXIT, b"0")];
    assert_eq!(
        grade(&runs),
        Ok(Verdict { status: JudgementStatus::Accepted, score: Some(15) })
    );
}

#[test]
fn no_runs_is_accepted_with_zero() {
    assert_eq!(
        grade(&Vec::new()),
        Ok(Verdict { status: JudgementStatus::Accepted, score: Some(0) })
    );
}

#[test]
fn wrong_answer_drops_the_score() {
    let runs = vec![run(ACCEPTED_EXIT, b"10"), run(WRONG_ANSWER_EXIT, b"")];
    assert_eq!(
        grade(&runs),
        Ok(Verdict { status: JudgementStatus::WrongAnswer, score: None })
    );
}

#[test]
fn last_failed_run_decides_the_state() {
    let a = vec![run(WRONG_ANSWER_EXIT, b""), run(1, b"")];
    assert_eq!(grade(&a).unwrap().status, JudgementStatus::JudgingError);
    let b = vec![run(1, b""), run(WRONG_ANSWER_EXIT, b""), run(ACCEPTED_EXIT, b"3")];
    assert_eq!(grade(&b).unwrap().status, JudgementStatus::WrongAnswer);
}

#[test]
fn outputs_after_a_failure_are_not_read() {
    let runs = vec![run(-1, b""), run(ACCEPTED_EXIT, b"not a number")];
    assert_eq!(
        grade(&runs),
        Ok(Verdict { status: JudgementStatus::JudgingError, score: None })
    );
}

#[test]
fn unreadable_output_before_a_failure_fails_grading() {
    let runs = vec![run(ACCEPTED_EXIT, b"x"), run(WRONG_ANSWER_EXIT, b"")];
    assert_eq!(grade(&runs), Err(ScoreError::NotAnInteger));
    let runs = vec![run(ACCEPTED_EXIT, &[0xc3]), run(ACCEPTED_EXIT, b"1")];
    assert_eq!(grade(&runs), Err(ScoreError::NotUtf8));
}

#[test]
fn overflowing_scores_are_reported() {
    let runs = vec![run(ACCEPTED_EXIT, b"9223372036854775807"), run(ACCEPTED_EXIT, b"1")];
    assert_eq!(try_grade(&runs), None);
    let runs = vec![run(ACCEPTED_EXIT, b"9223372036854775807"), run(ACCEPTED_EXIT, b"-1")];
    assert_eq!(
        try_grade(&runs),
        Some(Ok(Verdict { status: JudgementStatus::Accepted, score: Some(9223372036854775806) }))
    );
}

#[test]
fn overflow_after_a_parse_error_is_not_reached() {
    let runs = vec![
        run(ACCEPTED_EXIT, b"9223372036854775807"),
        run(ACCEPTED_EXIT, b"oops"),
        run(ACCEPTED_EXIT, b"5"),
    ];
    assert_eq!(try_grade(&runs), Some(Err(ScoreError::NotAnInteger)));
}

#[test]
fn a_run_ended_by_a_signal_counts_as_minus_one() {
    assert_eq!(stratum::judgement::status_code_of(Some(42)), 42);
    assert_eq!(stratum::judgement::status_code_of(Some(0)), 0);
    assert_eq!(stratum::judgement::status_code_of(None), -1);
}

#[test]
fn run_files_are_named_by_problem_and_position() {
    let f = stratum::judgement::run_files(12, 13, 4);
    assert_eq!(f.executable, "12.4");
    assert_eq!(f.input, "13.4.in");
    assert_eq!(f.output, "13.4.out");
    let f = stratum::judgement::run_files(-1, 0, -2);
    assert_eq!(f.executable, "-1.-2");
    assert_eq!(f.input, "0.-2.in");
}

#[test]
fn graded_judgements_are_never_transient() {
    for runs in [
        vec![],
        vec![run(ACCEPTED_EXIT, b"1")],
        vec![run(WRONG_ANSWER_EXIT, b"")],
        vec![run(7, b""), run(ACCEPTED_EXIT, b"2")],
    ] {
        let code = grade(&runs).unwrap().status.code();
        assert!(code >= 100, "code {} is transient", code);
    }
}
