//! Judgement states and the grading of a submission from its test runs.

use vstd::prelude::*;
use vstd::string::{StringExecFns, StringSliceAdditionalSpecFns, to_string_from_display_ensures};
use vstd::utf8::*;
use crate::text::{parsed_i64, trimmed, str_from_utf8, trim, parse_i64};

verus! {

broadcast use vstd::utf8::encode_utf8_decode_utf8;

/// The state of a judgement. Transient states have codes 0 to 99, permanent
/// success states 100 to 109, permanent user failures 110 to 199 and
/// permanent system failures 200 and up.
#[derive(Clone, Copy, Debug, PartialEq, Eq, Structural)]
pub enum JudgementStatus {
    Queued,
    InProgress,
    Accepted,
    WrongAnswer,
    JudgingError,
}

/// The bands into which judgement codes fall.
#[derive(Clone, Copy, Debug, PartialEq, Eq, Structural)]
pub enum StatusBand {
    Transient,
    Success,
    UserFailure,
    SystemFailure,
}

/// The band of a stored code.
pub open spec fn band_of_code(code: int) -> Option<StatusBand> {
    if 0 <= code <= 99 {
        Some(StatusBand::Transient)
    } else if 100 <= code <= 109 {
        Some(StatusBand::Success)
    } else if 110 <= code <= 199 {
        Some(StatusBand::UserFailure)
    } else if code >= 200 {
        Some(StatusBand::SystemFailure)
    } else {
        None
    }
}

impl JudgementStatus {
    /// The code stored in the database.
    pub open spec fn spec_code(self) -> i32 {
        match self {
            JudgementStatus::Queued => 0,
            JudgementStatus::InProgress => 1,
            JudgementStatus::Accepted => 100,
            JudgementStatus::WrongAnswer => 110,
            JudgementStatus::JudgingError => 200,
        }
    }

    /// The band that a state belongs to.
    pub open spec fn band(self) -> StatusBand {
        match self {
            JudgementStatus::Queued | JudgementStatus::InProgress => StatusBand::Transient,
            JudgementStatus::Accepted => StatusBand::Success,
            JudgementStatus::WrongAnswer => StatusBand::UserFailure,
            JudgementStatus::JudgingError => StatusBand::SystemFailure,
        }
    }

    /// The code stored in the database for this state.
    pub fn code(&self) -> (c: i32)
        ensures
            c == self.spec_code(),
    {
        match self {
            JudgementStatus::Queued => 0,
            JudgementStatus::InProgress => 1,
            JudgementStatus::Accepted => 100,
            JudgementStatus::WrongAnswer => 110,
            JudgementStatus::JudgingError => 200,
        }
    }
}

/// Every state's code lies in the band that the state belongs to.
pub proof fn lemma_code_in_band(s: JudgementStatus)
    ensures
        band_of_code(s.spec_code() as int) == Some(s.band()),
{
}

/// Distinct states are stored under distinct codes.
pub proof fn lemma_code_injective(a: JudgementStatus, b: JudgementStatus)
    ensures
        a.spec_code() == b.spec_code() ==> a == b,
{
}


/// The exit code with which a test program accepts a run.
pub const ACCEPTED_EXIT: i32 = 42;

/// The exit code with which a test program rejects the answer of a run.
pub const WRONG_ANSWER_EXIT: i32 = 43;

/// What running a submission on one test case gave.
pub struct TestRun {
    pub status_code: i32,
    pub output: Vec<u8>,
}

/// Why the output of an accepted run gave no score.
#[derive(Clone, Copy, Debug, PartialEq, Eq, Structural)]
pub enum ScoreError {
    /// The output is not UTF-8.
    NotUtf8,
    /// The trimmed output is not a decimal `i64`.
    NotAnInteger,
}

/// The outcome of grading: the final state and, for an accepted submission,
/// its score.
#[derive(Clone, Copy, Debug, PartialEq, Eq, Structural)]
pub struct Verdict {
    pub status: JudgementStatus,
    pub score: Option<i64>,
}

/// The status code recorded for a run: the exit code of the test program,
/// or -1 where it has none because a signal ended it.
pub fn status_code_of(exit_code: Option<i32>) -> (c: i32)
    ensures
        c == match exit_code {
            Some(v) => v,
            None => -1i32,
        },
{
    match exit_code {
        Some(v) => v,
        None => -1,
    }
}

/// The files of one test run: the test program, under the grader's
/// `executables` directory, and the test case's input and expected output,
/// under its `testcases` directory.
#[derive(Clone, Debug)]
pub struct RunFiles {
    pub executable: String,
    pub input: String,
    pub output: String,
}

/// The file names of the run of a submission for `submission_problem` on
/// the test case at `position` of `test_problem`: the program is
/// `{problem}.{position}`, the test case files add `.in` and `.out`.
pub fn run_files(submission_problem: i64, test_problem: i64, position: i32) -> (f: RunFiles)
    ensures
        exists|p: String, q: String, k: String|
            to_string_from_display_ensures::<i64>(&submission_problem, p)
                && to_string_from_display_ensures::<i64>(&test_problem, q)
                && to_string_from_display_ensures::<i32>(&position, k) && f.executable@ == p@
                + "."@ + k@ && f.input@ == q@ + "."@ + k@ + ".in"@ && f.output@ == q@ + "."@ + k@
                + ".out"@,
{
    let p = submission_problem.to_string();
    let q = test_problem.to_string();
    let k = position.to_string();
    let executable = p.clone().concat(".").concat(k.as_str());
    let stem = q.concat(".").concat(k.as_str());
    let input = stem.clone().concat(".in");
    let output = stem.concat(".out");
    RunFiles { executable, input, output }
}

/// Whether the test program accepted a run.
pub open spec fn passes(r: TestRun) -> bool {
    r.status_code == ACCEPTED_EXIT
}

/// The state that a failed run stands for.
pub open spec fn failure_status(code: i32) -> JudgementStatus {
    if code == WRONG_ANSWER_EXIT {
        JudgementStatus::WrongAnswer
    } else {
        JudgementStatus::JudgingError
    }
}

/// The score that an accepted run's output gives: the output, as UTF-8,
/// trimmed and read as a decimal `i64`.
pub open spec fn score_of_output(out: Seq<u8>) -> Result<i64, ScoreError> {
    if !valid_utf8(out) {
        Err(ScoreError::NotUtf8)
    } else {
        match parsed_i64(trimmed(decode_utf8(out))) {
            Some(v) => Ok(v),
            None => Err(ScoreError::NotAnInteger),
        }
    }
}

/// The final state: accepted when no run failed, else the state of the last
/// failed run.
pub open spec fn final_status(runs: Seq<TestRun>) -> JudgementStatus
    decreases runs.len(),
{
    if runs.len() == 0 {
        JudgementStatus::Accepted
    } else if !passes(runs.last()) {
        failure_status(runs.last().status_code)
    } else {
        final_status(runs.drop_last())
    }
}

/// How many runs pass before the first failed one.
pub open spec fn leading_passes(runs: Seq<TestRun>) -> nat
    decreases runs.len(),
{
    if runs.len() == 0 {
        0
    } else {
        let k = leading_passes(runs.drop_last());
        if k == runs.len() - 1 && passes(runs.last()) {
            runs.len()
        } else {
            k
        }
    }
}

/// The sum of the scores of the runs, or the error of the first output that
/// gives none.
pub open spec fn score_sum(runs: Seq<TestRun>) -> Result<int, ScoreError>
    decreases runs.len(),
{
    if runs.len() == 0 {
        Ok(0)
    } else {
        match score_sum(runs.drop_last()) {
            Err(e) => Err(e),
            Ok(s) => match score_of_output(runs.last().output@) {
                Err(e) => Err(e),
                Ok(v) => Ok(s + v),
            },
        }
    }
}

/// Every partial sum of scores that is computed fits in an `i64`.
pub open spec fn sums_fit(runs: Seq<TestRun>) -> bool {
    forall|n: int|
        0 <= n <= runs.len() ==> (#[trigger] score_sum(runs.take(n)) matches Ok(s) ==> i64::MIN
            <= s <= i64::MAX)
}

/// The runs whose outputs are read: those before the first failed run.
pub open spec fn scored_runs(runs: Seq<TestRun>) -> Seq<TestRun> {
    runs.take(leading_passes(runs) as int)
}

/// Grading the runs stays within `i64`.
pub open spec fn grading_fits(runs: Seq<TestRun>) -> bool {
    sums_fit(scored_runs(runs))
}

/// The outcome of grading the runs, in order.
pub open spec fn graded(runs: Seq<TestRun>) -> Result<Verdict, ScoreError> {
    match score_sum(scored_runs(runs)) {
        Err(e) => Err(e),
        Ok(s) => Ok(
            Verdict {
                status: final_status(runs),
                score: if leading_passes(runs) == runs.len() {
                    Some(s as i64)
                } else {
                    None
                },
            },
        ),
    }
}

proof fn lemma_leading_passes_take(s: Seq<TestRun>, n: int)
    requires
        0 <= n <= s.len(),
    ensures
        leading_passes(s) <= s.len(),
        leading_passes(s.take(n)) == if leading_passes(s) < n {
            leading_passes(s) as int
        } else {
            n
        },
    decreases s.len(),
{
    if s.len() == 0 {
        assert(s.take(n) =~= s);
    } else if n == s.len() {
        assert(s.take(n) =~= s);
        lemma_leading_passes_take(s.drop_last(), n - 1);
    } else {
        assert(s.take(n) =~= s.drop_last().take(n));
        lemma_leading_passes_take(s.drop_last(), n);
    }
}

proof fn lemma_score_sum_err(s: Seq<TestRun>, n: int)
    requires
        0 <= n <= s.len(),
        score_sum(s.take(n)) is Err,
    ensures
        score_sum(s) == score_sum(s.take(n)),
    decreases s.len(),
{
    if n == s.len() {
        assert(s.take(n) =~= s);
    } else {
        assert(s.take(n) =~= s.drop_last().take(n));
        lemma_score_sum_err(s.drop_last(), n);
    }
}

proof fn lemma_sums_fit_after_err(s: Seq<TestRun>, n: int)
    requires
        0 <= n <= s.len(),
        sums_fit(s.take(n)),
        score_sum(s.take(n)) is Err,
    ensures
        sums_fit(s),
{
    assert forall|m: int| 0 <= m <= s.len() implies (#[trigger] score_sum(s.take(m)) matches Ok(
        v,
    ) ==> i64::MIN <= v <= i64::MAX) by {
        if m <= n {
            assert(s.take(n).take(m) =~= s.take(m));
            assert(score_sum(s.take(n).take(m)) matches Ok(v) ==> i64::MIN <= v <= i64::MAX);
        } else {
            assert(s.take(m).take(n) =~= s.take(n));
            lemma_score_sum_err(s.take(m), n);
        }
    }
}

proof fn lemma_sums_fit_extend(s: Seq<TestRun>, n: int)
    requires
        0 <= n < s.len(),
        sums_fit(s.take(n)),
        score_sum(s.take(n + 1)) matches Ok(v) ==> i64::MIN <= v <= i64::MAX,
    ensures
        sums_fit(s.take(n + 1)),
{
    assert forall|m: int| 0 <= m <= n + 1 implies (#[trigger] score_sum(s.take(n + 1).take(m)) matches Ok(
        v,
    ) ==> i64::MIN <= v <= i64::MAX) by {
        if m <= n {
            assert(s.take(n + 1).take(m) =~= s.take(n).take(m));
        } else {
            assert(s.take(n + 1).take(m) =~= s.take(n + 1));
        }
    }
}

proof fn lemma_final_status_accepted(runs: Seq<TestRun>)
    ensures
        final_status(runs) == JudgementStatus::Accepted <==> forall|i: int|
            0 <= i < runs.len() ==> #[trigger] passes(runs[i]),
        leading_passes(runs) == runs.len() <==> forall|i: int|
            0 <= i < runs.len() ==> #[trigger] passes(runs[i]),
    decreases runs.len(),
{
    if runs.len() > 0 {
        let init = runs.drop_last();
        lemma_final_status_accepted(init);
        lemma_leading_passes_take(init, 0);
        assert forall|i: int| 0 <= i < init.len() implies init[i] == runs[i] by {}
        if forall|i: int| 0 <= i < runs.len() ==> #[trigger] passes(runs[i]) {
            assert forall|i: int| 0 <= i < init.len() implies #[trigger] passes(init[i]) by {
                assert(passes(runs[i]));
            }
            assert(passes(runs[runs.len() - 1]));
        } else {
            let k = choose|k: int| 0 <= k < runs.len() && !#[trigger] passes(runs[k]);
            if k < runs.len() - 1 {
                assert(!passes(init[k]));
            }
        }
    }
}

/// A graded submission is accepted exactly when every test run exited with
/// the accepting code, and only an accepted submission has a score.
pub proof fn lemma_accepted_iff_all_pass(runs: Seq<TestRun>)
    ensures
        graded(runs) matches Ok(v) ==> {
            &&& v.status == JudgementStatus::Accepted <==> forall|i: int|
                0 <= i < runs.len() ==> #[trigger] passes(runs[i])
            &&& v.score is Some <==> v.status == JudgementStatus::Accepted
        },
{
    lemma_final_status_accepted(runs);
}

/// Grading always ends in a permanent state: a graded judgement is never
/// left queued or in progress.
pub proof fn lemma_verdict_is_permanent(runs: Seq<TestRun>)
    ensures
        final_status(runs).band() != StatusBand::Transient,
        graded(runs) matches Ok(v) ==> v.status.band() != StatusBand::Transient,
    decreases runs.len(),
{
    if runs.len() > 0 && passes(runs.last()) {
        lemma_verdict_is_permanent(runs.drop_last());
    }
}

/// The last failed run decides the state: a failed run appended to any runs
/// sets it, and an accepted run appended keeps it.
pub proof fn lemma_last_failure_decides(runs: Seq<TestRun>, r: TestRun)
    ensures
        !passes(r) ==> final_status(runs.push(r)) == failure_status(r.status_code),
        passes(r) ==> final_status(runs.push(r)) == final_status(runs),
{
    assert(runs.push(r).drop_last() =~= runs);
}

/// Reads the score from the output of an accepted run.
pub fn parse_score(output: &Vec<u8>) -> (r: Result<i64, ScoreError>)
    ensures
        r == score_of_output(output@),
{
    match str_from_utf8(output.as_slice()) {
        Err(_) => Err(ScoreError::NotUtf8),
        Ok(s) => {
            proof {
                assert(decode_utf8(encode_utf8(s@)) == s@);
            }
            match parse_i64(trim(s)) {
                Ok(v) => Ok(v),
                Err(_) => Err(ScoreError::NotAnInteger),
            }
        },
    }
}

/// Grades the runs, in order, or gives `None` where a partial sum of scores
/// would leave `i64`.
pub fn try_grade(runs: &Vec<TestRun>) -> (r: Option<Result<Verdict, ScoreError>>)
    ensures
        r is None <==> !grading_fits(runs@),
        r matches Some(g) ==> g == graded(runs@),
{
    let ghost all = runs@;
    let mut score: i64 = 0;
    let mut success = true;
    let mut status = JudgementStatus::Accepted;
    let n = runs.len();
    proof {
        assert(all.take(0) =~= Seq::<TestRun>::empty());
        assert(sums_fit(all.take(0))) by {
            assert forall|m: int| 0 <= m <= 0 implies (#[trigger] score_sum(all.take(0).take(m)) matches Ok(
                v,
            ) ==> i64::MIN <= v <= i64::MAX) by {
                assert(all.take(0).take(m) =~= Seq::<TestRun>::empty());
            }
        }
    }
    for i in 0..n
        invariant
            n == all.len(),
            all == runs@,
            success <==> leading_passes(all.take(i as int)) == i,
            leading_passes(all.take(i as int)) <= i,
            status == final_status(all.take(i as int)),
            success ==> score_sum(all.take(i as int)) == Ok::<int, ScoreError>(score as int),
            score_sum(all.take(leading_passes(all.take(i as int)) as int)) is Ok,
            sums_fit(all.take(leading_passes(all.take(i as int)) as int)),
    {
        let run = &runs[i];
        let ghost prev = all.take(i as int);
        let ghost next = all.take(i + 1);
        proof {
            assert(next.drop_last() =~= prev);
            assert(next.last() == all[i as int]);
            lemma_leading_passes_take(all, i as int);
            lemma_leading_passes_take(all, i + 1);
        }
        if run.status_code != ACCEPTED_EXIT {
            success = false;
            status = if run.status_code == WRONG_ANSWER_EXIT {
                JudgementStatus::WrongAnswer
            } else {
                JudgementStatus::JudgingError
            };
            score = 0;
        }
        if success {
            let v = match parse_score(&run.output) {
                Ok(v) => v,
                Err(e) => {
                    proof {
                        assert(score_sum(next) == Err::<int, ScoreError>(e));
                        lemma_sums_fit_extend(all, i as int);
                        lemma_leading_passes_take(all, all.len() as int);
                        assert(all.take(all.len() as int) =~= all);
                        let lp = leading_passes(all);
                        assert(lp >= i + 1);
                        assert(scored_runs(all).take(i + 1) =~= next);
                        lemma_score_sum_err(scored_runs(all), i + 1);
                        lemma_sums_fit_after_err(scored_runs(all), i + 1);
                    }
                    return Some(Err(e));
                },
            };
            match score.checked_add(v) {
                Some(t) => {
                    proof {
                        lemma_sums_fit_extend(all, i as int);
                    }
                    score = t;
                },
                None => {
                    proof {
                        lemma_leading_passes_take(all, all.len() as int);
                        assert(all.take(all.len() as int) =~= all);
                        assert(scored_runs(all).take(i + 1) =~= next);
                        assert(score_sum(scored_runs(all).take(i + 1)) == Ok::<int, ScoreError>(score + v));
                    }
                    return None;
                },
            }
        }
    }
    proof {
        assert(all.take(n as int) =~= all);
    }
    Some(Ok(Verdict { status, score: if success { Some(score) } else { None } }))
}

/// Grades the runs, in order: the state of the last failed run, or accepted
/// with the sum of the scores that the outputs give; an output before the
/// first failed run that gives no score makes grading fail.
pub fn grade(runs: &Vec<TestRun>) -> (r: Result<Verdict, ScoreError>)
    requires
        grading_fits(runs@),
    ensures
        r == graded(runs@),
{
    match try_grade(runs) {
        Some(g) => g,
        None => vstd::pervasive::unreached(),
    }
}

} // verus!
