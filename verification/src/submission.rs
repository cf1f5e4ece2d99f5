//! Submitting solutions: which form fields become submissions, and who may
//! read a submission's results.

use vstd::prelude::*;
use vstd::string::{StringExecFns, StringSliceAdditionalSpecFns};
use vstd::utf8::*;
use crate::http::{ErrorKind, HttpError};
use crate::models::{Judgement, TestCaseJudgement};
use std::collections::HashMap;
use crate::multipart::{FormField, MultipartForm, fields_of};
use crate::text::{i64_error_text, parse_i64, parsed_i64, str_eq, string_from_utf8};
use crate::time::Timestamp;

verus! {

broadcast use vstd::utf8::encode_utf8_decode_utf8, vstd::utf8::encode_utf8_valid_utf8, vstd::std_specs::hash::group_hash_axioms;

/// How many bytes of a problem field's name come before the problem id.
pub const PROBLEM_ID_OFFSET: usize = 12;

/// One submission to store: the problem, the form field that holds the file,
/// the file's name, and whether the source file goes with it.
#[derive(Clone, Debug)]
pub struct SubmitStep {
    pub field_index: usize,
    pub problem_id: i64,
    pub entry_point: String,
    pub attach_source: bool,
}

/// What a submission form asks for: the submissions to store, in order, and
/// the refusal that stops the form after them, if any.
#[derive(Debug)]
pub struct SubmissionPlan {
    pub team_id: i64,
    pub form: MultipartForm,
    pub source_index: usize,
    pub source_name: String,
    pub steps: Vec<SubmitStep>,
    pub failure: Option<HttpError>,
}

/// The problem id that a field name carries after its first twelve bytes,
/// or the text of the refusal.
pub open spec fn field_problem_id(key: Seq<char>) -> Result<i64, Seq<char>> {
    let b = encode_utf8(key);
    if !is_char_boundary(b, PROBLEM_ID_OFFSET as int) {
        Err("Form field not matching pattern: "@ + key)
    } else {
        let tail = decode_utf8(b.subrange(PROBLEM_ID_OFFSET as int, b.len() as int));
        match parsed_i64(tail) {
            Some(v) => Ok(v),
            None => Err(i64_error_text(tail)),
        }
    }
}

/// Whether a form entry asks for a submission: any field but the source
/// that holds a non-empty file.
pub open spec fn is_submitted(entry: (String, FormField)) -> bool {
    entry.0@ != "source_code"@ && entry.1.content@.len() > 0
}

/// The name a submitted file is stored under.
pub open spec fn entry_point_of(f: FormField) -> Seq<char> {
    match f.disposition.filename {
        Some(n) => n@,
        None => "textfile"@,
    }
}

/// The submissions that the entries ask for, as (field index, problem id,
/// file name, source attached), and the refusal text that stops them.
pub open spec fn planned(content: Seq<(String, FormField)>) -> (
    Seq<(int, i64, Seq<char>, bool)>,
    Option<Seq<char>>,
)
    decreases content.len(),
{
    if content.len() == 0 {
        (Seq::empty(), None)
    } else {
        let (steps, err) = planned(content.drop_last());
        let e = content.last();
        if err is Some || !is_submitted(e) {
            (steps, err)
        } else {
            match field_problem_id(e.0@) {
                Err(m) => (steps, Some(m)),
                Ok(p) => (
                    steps.push((content.len() - 1, p, entry_point_of(e.1), steps.len() == 0)),
                    None,
                ),
            }
        }
    }
}

/// The planned submissions come from distinct submitted fields in the
/// form's order, each for the problem its field name carries and under its
/// file's name, and only the first carries the source file.
pub proof fn lemma_plan_shape(content: Seq<(String, FormField)>)
    ensures
        forall|i: int|
            0 <= i < planned(content).0.len() ==> {
                let s = #[trigger] planned(content).0[i];
                &&& 0 <= s.0 < content.len()
                &&& is_submitted(content[s.0])
                &&& field_problem_id(content[s.0].0@) == Ok::<i64, Seq<char>>(s.1)
                &&& s.2 == entry_point_of(content[s.0].1)
                &&& s.3 == (i == 0)
            },
        forall|i: int, j: int|
            0 <= i < j < planned(content).0.len() ==> #[trigger] planned(content).0[i].0
                < #[trigger] planned(content).0[j].0,
    decreases content.len(),
{
    if content.len() > 0 {
        let init = content.drop_last();
        lemma_plan_shape(init);
        assert forall|k: int| 0 <= k < init.len() implies init[k] == content[k] by {}
        assert(content[content.len() - 1] == content.last());
    }
}

/// When the name of every submitted field carries a problem id, nothing
/// stops the form, and every submitted field is planned; with
/// `lemma_plan_shape`, the plan has exactly one submission per submitted
/// field.
pub proof fn lemma_all_fields_planned(content: Seq<(String, FormField)>)
    requires
        forall|i: int|
            0 <= i < content.len() && is_submitted(#[trigger] content[i]) ==> field_problem_id(
                content[i].0@,
            ) is Ok,
    ensures
        planned(content).1 is None,
        forall|i: int|
            0 <= i < content.len() && is_submitted(#[trigger] content[i]) ==> exists|j: int|
                0 <= j < planned(content).0.len() && #[trigger] planned(content).0[j].0 == i,
    decreases content.len(),
{
    if content.len() > 0 {
        let init = content.drop_last();
        assert forall|k: int| 0 <= k < init.len() implies init[k] == content[k] by {}
        assert forall|i: int| 0 <= i < init.len() && is_submitted(#[trigger] init[i]) implies field_problem_id(
            init[i].0@,
        ) is Ok by {
            assert(init[i] == content[i]);
        }
        lemma_all_fields_planned(init);
        let last = content.len() - 1;
        assert(content[last] == content.last());
        let (steps, err) = planned(init);
        assert forall|i: int|
            0 <= i < content.len() && is_submitted(#[trigger] content[i]) implies exists|j: int|
            0 <= j < planned(content).0.len() && #[trigger] planned(content).0[j].0 == i by {
            if i < last {
                assert(init[i] == content[i]);
                let j = choose|j: int| 0 <= j < steps.len() && #[trigger] steps[j].0 == i;
                assert(planned(content).0[j] == steps[j]);
            } else {
                assert(planned(content).0[steps.len() as int].0 == i);
            }
        }
    }
}

/// The view of a step.
pub open spec fn step_view(s: SubmitStep) -> (int, i64, Seq<char>, bool) {
    (s.field_index as int, s.problem_id, s.entry_point@, s.attach_source)
}

/// Reads the problem id from a field name.
fn problem_id_of_field(key: &str) -> (r: Result<i64, String>)
    ensures
        r matches Ok(v) ==> field_problem_id(key@) == Ok::<i64, Seq<char>>(v),
        r matches Err(m) ==> field_problem_id(key@) == Err::<i64, Seq<char>>(m@),
{
    if !key.is_char_boundary(PROBLEM_ID_OFFSET) {
        return Err("Form field not matching pattern: ".to_owned().concat(key));
    }
    let (_, tail) = key.split_at(PROBLEM_ID_OFFSET);
    proof {
        assert(tail@ == decode_utf8(tail.spec_bytes()));
    }
    parse_i64(tail)
}

/// Plans the submissions of a form: a team is needed, then a well-formed
/// form with a source field; every other field with a non-empty file is a
/// submission for the problem whose id its name carries after the first
/// twelve bytes, and only the first submission carries the source file. A
/// field name without a problem id stops the form there.
pub fn plan_submissions(team_id: Option<i64>, form: Result<MultipartForm, HttpError>) -> (r: Result<
    SubmissionPlan,
    HttpError,
>)
    ensures
        team_id is None ==> (r matches Err(e) && e.kind == ErrorKind::Forbidden && e.message@
            == "You are not allowed to submit as you are not in a team"@),
        team_id is Some ==> match form {
            Err(fe) => r matches Err(e) && e == fe,
            Ok(f) => if !fields_of(f.entries_view()).contains_key("source_code"@) {
                r matches Err(e) && e.kind == ErrorKind::BadRequest && e.message@
                    == "Could not find source_code"@
            } else {
                r matches Ok(plan) && {
                    let (steps, err) = planned(f.entries_view());
                    &&& plan.team_id == team_id.unwrap()
                    &&& plan.form == f
                    &&& plan.source_index < f.entries_view().len()
                    &&& f.entries_view()[plan.source_index as int].0@ == "source_code"@
                    &&& fields_of(f.entries_view())["source_code"@] == f.entries_view()[plan.source_index as int].1
                    &&& plan.source_name@ == match f.entries_view()[plan.source_index as int].1.disposition.filename {
                        Some(n) => n@,
                        None => "source"@,
                    }
                    &&& plan.steps@.map_values(|s: SubmitStep| step_view(s)) == steps
                    &&& match err {
                        None => plan.failure is None,
                        Some(m) => plan.failure matches Some(e) && e.kind == ErrorKind::BadRequest
                            && e.message@ == m,
                    }
                }
            },
        },
{
    let team = match team_id {
        Some(t) => t,
        None => {
            return Err(HttpError::new(ErrorKind::Forbidden, "You are not allowed to submit as you are not in a team"));
        },
    };
    let form = match form {
        Ok(f) => f,
        Err(e) => {
            return Err(e);
        },
    };
    let source_index = match form.position("source_code") {
        Some(i) => i,
        None => {
            return Err(HttpError::new(ErrorKind::BadRequest, "Could not find source_code"));
        },
    };
    let source_name = match &form.entries()[source_index].1.disposition.filename {
        Some(n) => n.clone(),
        None => "source".to_owned(),
    };
    let mut steps: Vec<SubmitStep> = Vec::new();
    let mut failure: Option<HttpError> = None;
    let n = form.entries().len();
    let ghost c = form.entries_view();
    for i in 0..n
        invariant
            n == c.len(),
            c == form.entries_view(),
            steps@.map_values(|s: SubmitStep| step_view(s)) == planned(c.take(i as int)).0,
            failure is None <==> planned(c.take(i as int)).1 is None,
            failure matches Some(e) ==> e.kind == ErrorKind::BadRequest && Some(e.message@)
                == planned(c.take(i as int)).1,
    {
        proof {
            assert(c.take(i + 1).drop_last() =~= c.take(i as int));
            assert(c.take(i + 1).last() == c[i as int]);
        }
        let entry = &form.entries()[i];
        if failure.is_none() && !str_eq(entry.0.as_str(), "source_code") && entry.1.content.len() > 0 {
            match problem_id_of_field(entry.0.as_str()) {
                Err(m) => {
                    failure = Some(HttpError { kind: ErrorKind::BadRequest, message: m });
                },
                Ok(p) => {
                    let entry_point = match &entry.1.disposition.filename {
                        Some(f) => f.clone(),
                        None => "textfile".to_owned(),
                    };
                    let attach = steps.len() == 0;
                    let ghost old_steps = steps@;
                    steps.push(SubmitStep { field_index: i, problem_id: p, entry_point, attach_source: attach });
                    proof {
                        assert(steps@.map_values(|s: SubmitStep| step_view(s)) =~= old_steps.map_values(
                            |s: SubmitStep| step_view(s),
                        ).push(step_view(steps@[steps@.len() - 1])));
                    }
                },
            }
        }
    }
    proof {
        assert(c.take(n as int) =~= c);
    }
    Ok(SubmissionPlan { team_id: team, form, source_index, source_name, steps, failure })
}


/// A test run's result with its output and error streams as text.
#[derive(Clone, Debug)]
pub struct Utf8TestCaseJudgement {
    pub judgement_id: i64,
    pub judgement_grader_id: i32,
    pub test_case_position: i32,
    pub status_code: i32,
    pub output: String,
    pub error: String,
    pub created_at: Timestamp,
}

impl Utf8TestCaseJudgement {
    /// The result with both streams read as UTF-8.
    pub fn from_judgement(t: TestCaseJudgement) -> (u: Utf8TestCaseJudgement)
        requires
            valid_utf8(t.output@),
            valid_utf8(t.error@),
        ensures
            u.judgement_id == t.judgement_id,
            u.judgement_grader_id == t.judgement_grader_id,
            u.test_case_position == t.test_case_position,
            u.status_code == t.status_code,
            u.output@ == decode_utf8(t.output@),
            u.error@ == decode_utf8(t.error@),
            u.created_at == t.created_at,
    {
        let TestCaseJudgement {
            judgement_id,
            judgement_grader_id,
            test_case_position,
            status_code,
            output,
            error,
            created_at,
        } = t;
        let output = match string_from_utf8(output) {
            Some(s) => s,
            None => vstd::pervasive::unreached(),
        };
        let error = match string_from_utf8(error) {
            Some(s) => s,
            None => vstd::pervasive::unreached(),
        };
        Utf8TestCaseJudgement {
            judgement_id,
            judgement_grader_id,
            test_case_position,
            status_code,
            output,
            error,
            created_at,
        }
    }
}

/// Lets a team see its own submission only: a viewer outside any team is
/// forbidden, another team's submission is not found.
pub fn authorize_view(viewer_team: Option<i64>, submission_team: i64) -> (r: Result<(), HttpError>)
    ensures
        viewer_team is None ==> (r matches Err(e) && e.kind == ErrorKind::Forbidden && e.message@
            == "You are not allowed to submit as you are not in a team"@),
        viewer_team matches Some(t) ==> (t == submission_team <==> r is Ok),
        viewer_team matches Some(t) && t != submission_team ==> (r matches Err(e) && e.kind
            == ErrorKind::NotFound && e.message@ == "Could not find this submission"@),
{
    match viewer_team {
        None => Err(HttpError::new(ErrorKind::Forbidden, "You are not allowed to submit as you are not in a team")),
        Some(t) => {
            if t != submission_team {
                Err(HttpError::new(ErrorKind::NotFound, "Could not find this submission"))
            } else {
                Ok(())
            }
        },
    }
}


/// The judgements of the submission `(location, id)`, in their order.
pub open spec fn judgements_of(js: Seq<Judgement>, submission_id: i64, location_id: i32) -> Seq<Judgement>
    decreases js.len(),
{
    if js.len() == 0 {
        Seq::empty()
    } else {
        let rest = judgements_of(js.drop_last(), submission_id, location_id);
        let j = js.last();
        if j.submission_id == submission_id && j.submission_location_id == location_id {
            rest.push(j)
        } else {
            rest
        }
    }
}

/// Whether some judgement is for a submission with this id.
pub open spec fn judges_id(js: Seq<Judgement>, submission_id: i64) -> bool {
    exists|i: int| 0 <= i < js.len() && #[trigger] js[i].submission_id == submission_id
}

/// Whether some judgement is for the submission `(location, id)`.
pub open spec fn judges(js: Seq<Judgement>, submission_id: i64, location_id: i32) -> bool {
    exists|i: int|
        0 <= i < js.len() && #[trigger] js[i].submission_id == submission_id
            && js[i].submission_location_id == location_id
}

/// The nested grouping is right for the judgements `js`.
pub open spec fn groups(js: Seq<Judgement>, m: Map<i64, HashMap<i32, Vec<Judgement>>>) -> bool {
    &&& forall|s: i64| #[trigger] m.contains_key(s) <==> judges_id(js, s)
    &&& forall|s: i64, l: i32|
        m.contains_key(s) ==> (#[trigger] m[s]@.contains_key(l) <==> judges(js, s, l))
    &&& forall|s: i64, l: i32|
        m.contains_key(s) && #[trigger] m[s]@.contains_key(l) ==> m[s]@[l]@ == judgements_of(js, s, l)
}

proof fn lemma_judgements_of_absent(js: Seq<Judgement>, s: i64, l: i32)
    requires
        !judges(js, s, l),
    ensures
        judgements_of(js, s, l) == Seq::<Judgement>::empty(),
    decreases js.len(),
{
    if js.len() > 0 {
        assert(!judges(js.drop_last(), s, l)) by {
            if judges(js.drop_last(), s, l) {
                let i = choose|i: int|
                    0 <= i < js.drop_last().len() && #[trigger] js.drop_last()[i].submission_id == s
                        && js.drop_last()[i].submission_location_id == l;
                assert(js[i] == js.drop_last()[i]);
            }
        }
        lemma_judgements_of_absent(js.drop_last(), s, l);
        assert(js[js.len() - 1] == js.last());
    }
}

/// Groups judgements by submission id and then by location, keeping their
/// order.
pub fn group_judgements(js: Vec<Judgement>) -> (m: HashMap<i64, HashMap<i32, Vec<Judgement>>>)
    ensures
        groups(js@, m@),
{
    let ghost all = js@;
    let mut rest = js;
    let mut m: HashMap<i64, HashMap<i32, Vec<Judgement>>> = HashMap::new();
    let ghost mut done: int = 0;
    proof {
        assert(all.take(0) =~= Seq::<Judgement>::empty());
    }
    while rest.len() > 0
        invariant
            0 <= done <= all.len(),
            all == js@,
            rest@ == all.skip(done),
            groups(all.take(done), m@),
        decreases rest.len(),
    {
        let j = rest.remove(0);
        let ghost prev = all.take(done);
        let ghost next = all.take(done + 1);
        let ghost old_m = m@;
        proof {
            assert(all.skip(done)[0] == j);
            assert(rest@ =~= all.skip(done + 1));
            assert(next.drop_last() =~= prev);
            assert(next.last() == j);
            assert(next =~= prev.push(j));
            done = done + 1;
        }
        let sid = j.submission_id;
        let loc = j.submission_location_id;
        let mut inner = match m.remove(&sid) {
            Some(x) => x,
            None => HashMap::new(),
        };
        let ghost old_inner = inner@;
        let mut list = match inner.remove(&loc) {
            Some(v) => v,
            None => Vec::new(),
        };
        proof {
            if !old_m.contains_key(sid) || !old_inner.contains_key(loc) {
                assert(!judges(prev, sid, loc));
                lemma_judgements_of_absent(prev, sid, loc);
            }
            assert(list@ == judgements_of(prev, sid, loc));
        }
        list.push(j);
        inner.insert(loc, list);
        m.insert(sid, inner);
        proof {
            assert forall|s: i64| #[trigger] m@.contains_key(s) <==> judges_id(next, s) by {
                if s == sid {
                    assert(next[next.len() - 1] == j);
                } else if judges_id(next, s) {
                    let i = choose|i: int| 0 <= i < next.len() && #[trigger] next[i].submission_id == s;
                    assert(i < prev.len());
                    assert(prev[i] == next[i]);
                } else if judges_id(prev, s) {
                    let i = choose|i: int| 0 <= i < prev.len() && #[trigger] prev[i].submission_id == s;
                    assert(prev[i] == next[i]);
                }
            }
            assert forall|s: i64, l: i32| m@.contains_key(s) implies (#[trigger] m@[s]@.contains_key(l)
                <==> judges(next, s, l)) by {
                if judges(next, s, l) && !(s == sid && l == loc) {
                    let i = choose|i: int|
                        0 <= i < next.len() && #[trigger] next[i].submission_id == s
                            && next[i].submission_location_id == l;
                    assert(i < prev.len());
                    assert(prev[i] == next[i]);
                }
                if judges(prev, s, l) {
                    let i = choose|i: int|
                        0 <= i < prev.len() && #[trigger] prev[i].submission_id == s
                            && prev[i].submission_location_id == l;
                    assert(prev[i] == next[i]);
                }
                if s == sid && l == loc {
                    assert(next[next.len() - 1] == j);
                }
            }
            assert forall|s: i64, l: i32| m@.contains_key(s) && #[trigger] m@[s]@.contains_key(l) implies m@[s]@[l]@
                == judgements_of(next, s, l) by {
                if s == sid && l == loc {
                } else if s == sid {
                    assert(old_inner.contains_key(l));
                }
            }
        }
    }
    proof {
        assert(all.take(done) =~= all);
    }
    m
}

} // verus!
