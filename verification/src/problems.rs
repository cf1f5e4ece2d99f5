//! Problem material: the upload forms for test cases and statements, and
//! handing a statement out to contestants.

use vstd::prelude::*;
use vstd::string::StringExecFns;
use crate::http::{ErrorKind, HttpError};
use crate::models::ContestProblem;
use crate::multipart::{FormField, MultipartForm, field_outcome, fields_of, number_outcome, text_outcome};

verus! {

/// A test case to store, as the upload form gives it.
#[derive(Clone, Debug)]
pub struct NewTestCase {
    pub problem_id: i64,
    pub position: i32,
    pub description: String,
    pub input_mimetype: String,
    pub input: Vec<u8>,
    pub output_mimetype: String,
    pub output: Vec<u8>,
    pub visible_rights: i16,
}

/// The values of a test case: problem, position, description, input type
/// and bytes, output type and bytes, and the rights that may see it.
pub open spec fn test_case_view(t: NewTestCase) -> (i64, i32, Seq<char>, Seq<char>, Seq<u8>, Seq<char>, Seq<u8>, i16) {
    (
        t.problem_id,
        t.position,
        t.description@,
        t.input_mimetype@,
        t.input@,
        t.output_mimetype@,
        t.output@,
        t.visible_rights,
    )
}

/// What the test case form gives: its fields are read in the order
/// `problem_id`, `position`, `description`, `input`, `output`,
/// `visible_rights`, and the first that fails gives the refusal.
pub open spec fn test_case_outcome(fields: Map<Seq<char>, FormField>) -> Result<
    (i64, i32, Seq<char>, Seq<char>, Seq<u8>, Seq<char>, Seq<u8>, i16),
    Seq<char>,
> {
    match number_outcome::<i64>(fields, "problem_id"@) {
        Err(m) => Err(m),
        Ok(problem_id) => match number_outcome::<i32>(fields, "position"@) {
            Err(m) => Err(m),
            Ok(position) => match text_outcome(fields, "description"@) {
                Err(m) => Err(m),
                Ok(description) => match field_outcome(fields, "input"@) {
                    Err(m) => Err(m),
                    Ok(input) => match field_outcome(fields, "output"@) {
                        Err(m) => Err(m),
                        Ok(output) => match number_outcome::<i16>(fields, "visible_rights"@) {
                            Err(m) => Err(m),
                            Ok(rights) => Ok(
                                (
                                    problem_id,
                                    position,
                                    description,
                                    input.mime@,
                                    input.content@,
                                    output.mime@,
                                    output.content@,
                                    rights,
                                ),
                            ),
                        },
                    },
                },
            },
        },
    }
}

/// Reads the test case that the upload form describes.
pub fn read_test_case(form: &MultipartForm) -> (r: Result<NewTestCase, HttpError>)
    ensures
        r is Ok <==> test_case_outcome(fields_of(form.entries_view())) is Ok,
        r matches Ok(t) ==> test_case_outcome(fields_of(form.entries_view())) == Ok::<
            (i64, i32, Seq<char>, Seq<char>, Seq<u8>, Seq<char>, Seq<u8>, i16),
            Seq<char>,
        >(test_case_view(t)),
        r matches Err(e) ==> e.kind == ErrorKind::BadRequest && test_case_outcome(
            fields_of(form.entries_view()),
        ) == Err::<(i64, i32, Seq<char>, Seq<char>, Seq<u8>, Seq<char>, Seq<u8>, i16), Seq<char>>(
            e.message@,
        ),
{
    let problem_id = form.get_parsed_content::<i64>("problem_id")?;
    let position = form.get_parsed_content::<i32>("position")?;
    let description = form.get_content_str("description")?.to_owned();
    let input = form.get("input")?;
    let output = form.get("output")?;
    let visible_rights = form.get_parsed_content::<i16>("visible_rights")?;
    let t = NewTestCase {
        problem_id,
        position,
        description,
        input_mimetype: input.mime.clone(),
        input: input.content.clone(),
        output_mimetype: output.mime.clone(),
        output: output.content.clone(),
        visible_rights,
    };
    proof {
        assert(t.input@ =~= input.content@);
        assert(t.output@ =~= output.content@);
    }
    Ok(t)
}

/// A problem statement to store, as the upload form gives it.
#[derive(Clone, Debug)]
pub struct NewProblemStatement {
    pub problem_id: i64,
    pub filename: String,
    pub mimetype: String,
    pub statement: Vec<u8>,
}

/// The values of a statement: problem, file name, type and bytes.
pub open spec fn statement_view(s: NewProblemStatement) -> (i64, Seq<char>, Seq<char>, Seq<u8>) {
    (s.problem_id, s.filename@, s.mimetype@, s.statement@)
}

/// What the statement form gives: the `statement` file, then the
/// `problem_id`; a file without a name is stored as "unnamed file".
pub open spec fn statement_outcome(fields: Map<Seq<char>, FormField>) -> Result<
    (i64, Seq<char>, Seq<char>, Seq<u8>),
    Seq<char>,
> {
    match field_outcome(fields, "statement"@) {
        Err(m) => Err(m),
        Ok(f) => match number_outcome::<i64>(fields, "problem_id"@) {
            Err(m) => Err(m),
            Ok(problem_id) => Ok(
                (
                    problem_id,
                    match f.disposition.filename {
                        Some(n) => n@,
                        None => "unnamed file"@,
                    },
                    f.mime@,
                    f.content@,
                ),
            ),
        },
    }
}

/// Reads the problem statement that the upload form describes.
pub fn read_problem_statement(form: &MultipartForm) -> (r: Result<NewProblemStatement, HttpError>)
    ensures
        r is Ok <==> statement_outcome(fields_of(form.entries_view())) is Ok,
        r matches Ok(s) ==> statement_outcome(fields_of(form.entries_view())) == Ok::<
            (i64, Seq<char>, Seq<char>, Seq<u8>),
            Seq<char>,
        >(statement_view(s)),
        r matches Err(e) ==> e.kind == ErrorKind::BadRequest && statement_outcome(
            fields_of(form.entries_view()),
        ) == Err::<(i64, Seq<char>, Seq<char>, Seq<u8>), Seq<char>>(e.message@),
{
    let file = form.get("statement")?;
    let problem_id = form.get_parsed_content::<i64>("problem_id")?;
    let filename = match &file.disposition.filename {
        Some(n) => n.clone(),
        None => "unnamed file".to_owned(),
    };
    let s = NewProblemStatement {
        problem_id,
        filename,
        mimetype: file.mime.clone(),
        statement: file.content.clone(),
    };
    proof {
        assert(s.statement@ =~= file.content@);
    }
    Ok(s)
}

/// Hands a statement out only where its problem is part of the contest:
/// the contest's entry for the problem, or "not found".
pub fn statement_in_contest(found: Option<ContestProblem>) -> (r: Result<ContestProblem, HttpError>)
    ensures
        found matches Some(cp) ==> r == Ok::<ContestProblem, HttpError>(cp),
        found is None ==> (r matches Err(e) && e.kind == ErrorKind::NotFound && e.message@
            == "Could not find ProblemStatement"@),
{
    match found {
        Some(cp) => Ok(cp),
        None => Err(HttpError::new(ErrorKind::NotFound, "Could not find ProblemStatement")),
    }
}

/// The `Content-Disposition` header under which a statement is downloaded.
pub fn attachment_disposition(filename: &str) -> (h: String)
    ensures
        h@ == "attachment; filename=\""@ + filename@ + "\""@,
{
    "attachment; filename=\"".to_owned().concat(filename).concat("\"")
}

} // verus!
