//! The records that the administration forms store.

use vstd::prelude::*;
use vstd::utf8::*;
use vstd::string::{StringExecFns, to_string_from_display_ensures};
use crate::http::{ErrorKind, HttpError};
use crate::pass::{hash, hashes_password};
use crate::text::{parse_i64, parsed_i64};

verus! {

/// The form that creates a user; the team id arrives as text.
pub struct CreateUserForm {
    pub team_id: String,
    pub username: String,
    pub password: String,
    pub rights: i16,
}

/// A user to store.
pub struct CreateUser {
    pub team_id: Option<i64>,
    pub username: String,
    pub password_hash: String,
    pub rights: i16,
}

/// The form that edits a user; an empty password keeps the stored one.
pub struct EditUserForm {
    pub team_id: String,
    pub username: String,
    pub password: String,
    pub rights: i16,
}

/// The changes to a stored user.
pub struct EditUser {
    pub id: i64,
    pub team_id: Option<i64>,
    pub username: String,
    pub password_hash: Option<String>,
    pub rights: i16,
}

/// The team id that the form's text gives: none where it is no `i64`.
fn team_of(text: &String) -> (r: Option<i64>)
    ensures
        r == parsed_i64(text@),
{
    match parse_i64(text.as_str()) {
        Ok(v) => Some(v),
        Err(_) => None,
    }
}

impl CreateUser {
    /// The user that the form creates, with the password hashed; where the
    /// operating system refuses randomness for the salt, a server error
    /// with its text.
    pub fn from_form(f: CreateUserForm) -> (r: Result<CreateUser, HttpError>)
        requires
            encode_utf8(f.password@).len() <= u32::MAX,
        ensures
            r matches Ok(u) ==> {
                &&& u.team_id == parsed_i64(f.team_id@)
                &&& u.username == f.username
                &&& hashes_password(u.password_hash@, f.password@)
                &&& u.rights == f.rights
            },
            r matches Err(e) ==> e.kind == ErrorKind::InternalServerError,
    {
        let team_id = team_of(&f.team_id);
        let CreateUserForm { team_id: _, username, password, rights } = f;
        match hash(password) {
            Ok(password_hash) => Ok(CreateUser { team_id, username, password_hash, rights }),
            Err(t) => Err(HttpError { kind: ErrorKind::InternalServerError, message: t }),
        }
    }
}

impl EditUser {
    /// The changes that the form makes to the user `id`: a new hash only
    /// where a password was given; where the operating system refuses
    /// randomness for its salt, a server error with its text.
    pub fn from_form(id: i64, f: EditUserForm) -> (r: Result<EditUser, HttpError>)
        requires
            encode_utf8(f.password@).len() <= u32::MAX,
        ensures
            f.password@.len() == 0 ==> r is Ok,
            r matches Ok(u) ==> {
                &&& u.id == id
                &&& u.team_id == parsed_i64(f.team_id@)
                &&& u.username == f.username
                &&& f.password@.len() == 0 ==> u.password_hash is None
                &&& f.password@.len() != 0 ==> (u.password_hash matches Some(h) && hashes_password(
                    h@,
                    f.password@,
                ))
                &&& u.rights == f.rights
            },
            r matches Err(e) ==> e.kind == ErrorKind::InternalServerError,
    {
        let team_id = team_of(&f.team_id);
        let EditUserForm { team_id: _, username, password, rights } = f;
        let password_hash = if password.as_str().is_empty() {
            None
        } else {
            match hash(password) {
                Ok(h) => Some(h),
                Err(t) => {
                    return Err(HttpError { kind: ErrorKind::InternalServerError, message: t });
                },
            }
        };
        Ok(EditUser { id, team_id, username, password_hash, rights })
    }
}

/// Refuses an edit whose form names another record than the page it was
/// sent to: `expected` is the id in the form, `given` the id in the path.
pub fn check_update_target(record: &str, expected: i64, given: i64) -> (r: Result<(), HttpError>)
    ensures
        r is Ok <==> expected == given,
        r matches Err(e) ==> e.kind == ErrorKind::BadRequest && exists|a: String, b: String|
            to_string_from_display_ensures::<i64>(&expected, a)
                && to_string_from_display_ensures::<i64>(&given, b) && e.message@
                == "Attempted to update different "@ + record@ + ", expected "@ + a@
                + ", was given "@ + b@,
{
    if expected != given {
        let a = expected.to_string();
        let b = given.to_string();
        let message = "Attempted to update different ".to_owned().concat(record).concat(", expected ").concat(
            a.as_str(),
        ).concat(", was given ").concat(b.as_str());
        return Err(HttpError { kind: ErrorKind::BadRequest, message });
    }
    Ok(())
}

} // verus!
