//! Signing in: checking the password and taking the new session.

use vstd::prelude::*;
use vstd::utf8::encode_utf8;
use vstd::string::{StringExecFns, to_string_from_display_ensures};
use crate::http::{ErrorKind, HttpError};
use crate::models::{Session, User};
use crate::encoded::checkable;
use crate::pass::{argon2_checked, check, hashes_password};

verus! {

/// How a sign-in with this user, if any, and password is answered: the id
/// of the user to open a session for, or the refusal.
pub open spec fn sign_in(user: Option<&User>, password: Seq<char>) -> Result<i64, (ErrorKind, Seq<char>)> {
    match user {
        None => Err(
            (ErrorKind::Unauthorized, "Could not log in: please check your username/password combination"@),
        ),
        Some(u) => match argon2_checked(encode_utf8(u.password_hash@), encode_utf8(password)) {
            Ok(true) => Ok(u.id),
            Ok(false) => Err(
                (ErrorKind::Unauthorized, "Could not log in: please check your username/password combination"@),
            ),
            Err(t) => Err((ErrorKind::InternalServerError, t)),
        },
    }
}

/// A user whose stored hash was made from a password signs in with it.
pub proof fn lemma_own_password_signs_in(user: &User, password: Seq<char>)
    requires
        hashes_password(user.password_hash@, password),
    ensures
        sign_in(Some(user), password) == Ok::<i64, (ErrorKind, Seq<char>)>(user.id),
{
}

/// A wrong password is refused exactly as an unknown user is, so that a
/// refusal does not tell whether the user exists.
pub proof fn lemma_wrong_password_looks_like_unknown_user(user: &User, password: Seq<char>)
    requires
        argon2_checked(encode_utf8(user.password_hash@), encode_utf8(password)) == Ok::<bool, Seq<char>>(false),
    ensures
        sign_in(Some(user), password) == sign_in(None, password),
{
}

/// Decides a sign-in: the user found under the name, if any, must have a
/// stored hash that the password checks against; a hash that does not
/// decode is a server error with the decoder's text.
pub fn login(user: Option<&User>, password: &str) -> (r: Result<i64, HttpError>)
    requires
        user matches Some(u) ==> checkable(encode_utf8(u.password_hash@), encode_utf8(password@).len() as int),
    ensures
        r matches Ok(id) ==> sign_in(user, password@) == Ok::<i64, (ErrorKind, Seq<char>)>(id),
        r matches Err(e) ==> sign_in(user, password@) == Err::<i64, (ErrorKind, Seq<char>)>(
            (e.kind, e.message@),
        ),
{
    match user {
        None => Err(
            HttpError::new(ErrorKind::Unauthorized, "Could not log in: please check your username/password combination"),
        ),
        Some(u) => match check(u.password_hash.as_str(), password) {
            Ok(correct) => {
                if correct {
                    Ok(u.id)
                } else {
                    Err(
                        HttpError::new(ErrorKind::Unauthorized, "Could not log in: please check your username/password combination"),
                    )
                }
            },
            Err(t) => Err(HttpError { kind: ErrorKind::InternalServerError, message: t }),
        },
    }
}

/// The key of the session that storing a sign-in gave: exactly one session
/// must come back.
pub fn session_key(sessions: &Vec<Session>) -> (r: Result<u128, HttpError>)
    ensures
        sessions.len() == 1 ==> r == Ok::<u128, HttpError>(sessions@[0].key),
        sessions.len() != 1 ==> (r matches Err(e) && e.kind == ErrorKind::InternalServerError
            && exists|n: String|
            to_string_from_display_ensures::<usize>(&sessions.len(), n) && e.message@
                == "Received "@ + n@ + " sessions from database, expected 1"@),
{
    let count = sessions.len();
    if count != 1 {
        let n = count.to_string();
        let message = "Received ".to_owned().concat(n.as_str()).concat(" sessions from database, expected 1");
        return Err(HttpError { kind: ErrorKind::InternalServerError, message });
    }
    Ok(sessions[0].key)
}

} // verus!
