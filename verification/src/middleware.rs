//! The checks that guard requests before a page is built.

use vstd::prelude::*;
use vstd::string::StringExecFns;
use crate::http::{ErrorKind, HttpError};
use crate::models::{Contest, Team, User};
use crate::text::{lowercased, to_lowercase};
use crate::time::{Timestamp, chrono_utc_text, now, read_from_clock};

verus! {

/// Lets a request through only for a signed-in user with at least
/// `min_rights`; anybody else is answered "not found", so that the page is
/// not confirmed to exist. Rights 1 allow submitting, rights 1000 allow the
/// administration pages.
pub struct CheckRights {
    pub min_rights: i16,
}

impl CheckRights {
    /// Whether the user may pass.
    pub open spec fn admits(&self, user: Option<&User>) -> bool {
        user matches Some(u) && u.rights >= self.min_rights
    }

    /// Checks the signed-in user, if any.
    pub fn start(&self, user: Option<&User>) -> (r: Result<(), HttpError>)
        ensures
            r is Ok <==> self.admits(user),
            r matches Err(e) ==> e.kind == ErrorKind::NotFound && e.message@ == ""@,
    {
        match user {
            Some(u) => {
                if u.rights >= self.min_rights {
                    Ok(())
                } else {
                    Err(HttpError::new(ErrorKind::NotFound, ""))
                }
            },
            None => Err(HttpError::new(ErrorKind::NotFound, "")),
        }
    }
}

/// Lets a request into a contest only once the contest has started; a
/// contest without a start time is not published and is not found.
pub struct CheckContestStarted;

/// How a request into a contest is answered at a given instant.
pub open spec fn contest_gate(contest: Option<&Contest>, now: Timestamp) -> Result<(), (ErrorKind, Seq<char>)> {
    match contest {
        None => Err((ErrorKind::NotFound, ""@)),
        Some(c) => match c.start_at {
            None => Err((ErrorKind::NotFound, ""@)),
            Some(start) => if !now.lt(start) {
                Ok(())
            } else {
                Err(
                    (
                        ErrorKind::Forbidden,
                        "This contest will start at "@ + chrono_utc_text(
                            start.spec_secs(),
                            start.spec_nanos(),
                        ),
                    ),
                )
            },
        },
    }
}

impl CheckContestStarted {
    /// Checks the bound contest, if any, at the instant `now`.
    pub fn check_at(&self, contest: Option<&Contest>, now: Timestamp) -> (r: Result<(), HttpError>)
        ensures
            r is Ok <==> contest_gate(contest, now) is Ok,
            r matches Err(e) ==> contest_gate(contest, now) == Err::<(), (ErrorKind, Seq<char>)>(
                (e.kind, e.message@),
            ),
    {
        match contest {
            None => Err(HttpError::new(ErrorKind::NotFound, "")),
            Some(c) => match c.start_at {
                None => Err(HttpError::new(ErrorKind::NotFound, "")),
                Some(start) => {
                    if !now.is_before(&start) {
                        Ok(())
                    } else {
                        let text = start.to_text();
                        let message = "This contest will start at ".to_owned().concat(text.as_str());
                        Err(HttpError { kind: ErrorKind::Forbidden, message })
                    }
                },
            },
        }
    }

    /// Checks the bound contest, if any, against the clock; the clock is
    /// read only for a contest with a start time, the answer is the one at
    /// the instant that the clock gave (before the start: forbidden, with the
    /// start time), and a clock that cannot be read is a server error.
    pub fn start(&self, contest: Option<&Contest>) -> (r: Result<(), HttpError>)
        ensures
            !(contest matches Some(c) && c.start_at is Some) ==> (r matches Err(e) && e.kind
                == ErrorKind::NotFound && e.message@ == ""@),
            (contest matches Some(c) && c.start_at is Some) ==> (exists|n: Timestamp|
                read_from_clock(n) && (r is Ok <==> contest_gate(contest, n) is Ok) && (r matches Err(e)
                    ==> contest_gate(contest, n) == Err::<(), (ErrorKind, Seq<char>)>(
                    (e.kind, e.message@),
                ))) || (r matches Err(e) && e.kind == ErrorKind::InternalServerError
                    && e.message@ == "The system clock cannot be read"@),
    {
        match contest {
            None => Err(HttpError::new(ErrorKind::NotFound, "")),
            Some(c) => match c.start_at {
                None => Err(HttpError::new(ErrorKind::NotFound, "")),
                Some(_) => match now() {
                    Some(clock) => self.check_at(contest, clock),
                    None => Err(HttpError::new(ErrorKind::InternalServerError, "The system clock cannot be read")),
                },
            },
        }
    }
}

/// A user who passes a rights check passes every check that asks for fewer
/// rights.
pub proof fn lemma_rights_monotone(strict: &CheckRights, lenient: &CheckRights, user: Option<&User>)
    requires
        lenient.min_rights <= strict.min_rights,
    ensures
        strict.admits(user) ==> lenient.admits(user),
{
}

/// Once a contest lets requests in, it lets them in at every later instant.
pub proof fn lemma_started_contest_stays_open(contest: Option<&Contest>, earlier: Timestamp, later: Timestamp)
    requires
        !later.lt(earlier),
    ensures
        contest_gate(contest, earlier) is Ok ==> contest_gate(contest, later) is Ok,
{
}

/// Binds the contest named in the request path, whatever the case of the
/// name; an unknown name is answered "not found".
pub struct ContestBinder;

impl ContestBinder {
    /// The key under which the contest is looked up: the lowercased name.
    pub fn start(&self, contest_name: &str) -> (key: String)
        ensures
            key@ == lowercased(contest_name@),
    {
        to_lowercase(contest_name)
    }

    /// Answers the lookup: the contest found, or "not found".
    pub fn bind(&self, found: Option<Contest>) -> (r: Result<Contest, HttpError>)
        ensures
            found matches Some(c) ==> r == Ok::<Contest, HttpError>(c),
            found is None ==> (r matches Err(e) && e.kind == ErrorKind::NotFound
                && e.message@ == "Could not find contest with this name"@),
    {
        match found {
            Some(c) => Ok(c),
            None => Err(HttpError::new(ErrorKind::NotFound, "Could not find contest with this name")),
        }
    }
}

/// Preloads the user and team of the session cookie into the request.
pub struct DataBinder;

impl DataBinder {
    /// What the session's row binds: its user, if any, and that user's team,
    /// if any.
    pub fn bind(&self, found: Option<(User, Option<Team>)>) -> (r: (Option<User>, Option<Team>))
        ensures
            found matches Some((u, t)) ==> r.0 == Some(u) && r.1 == t,
            found is None ==> r.0 is None && r.1 is None,
    {
        match found {
            Some((u, t)) => (Some(u), t),
            None => (None, None),
        }
    }
}

} // verus!
