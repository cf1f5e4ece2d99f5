use stratum::forms::{CreateUser, CreateUserForm, EditUser, EditUserForm};
use stratum::http::{ErrorKind, HttpError};
use stratum::models::{Session, User};
use stratum::encoded::checkable_text;
use stratum::pass::{check, hash, hash_with_salt};
use stratum::session::{login, session_key};
use stratum::time::Timestamp;

fn ts(secs: i64) -> Timestamp {
    Timestamp::new(secs, 0).unwrap()
}

fn user_with_hash(h: &str) -> User {
    User {
        id: 21,
        team_id: Some(2),
        username: "ada".to_string(),
        password_hash: h.to_string(),
        rights: 1,
        created_at: ts(0),
        updated_at: ts(0),
    }
}

fn err<T>(r: Result<T, HttpError>) -> HttpError {
    match r {
        Ok(_) => panic!("expected a refusal"),
        Err(e) => e,
    }
}

const REFUSAL: &str = "Could not log in: please check your username/password combination";

#[test]
fn a_hash_checks_its_own_password_only() {
    let h = hash("correct horse".to_string()).unwrap();
    assert!(h.starts_with("$argon2i$"));
    assert_eq!(check(&h, "correct horse"), Ok(true));
    assert_eq!(check(&h, "correct horsf"), Ok(false));
}

#[test]
fn two_hashes_of_one_password_differ_by_salt() {
    let a = hash("pw".to_string()).unwrap();
    let b = hash("pw".to_string()).unwrap();
    assert_ne!(a, b);
    assert_eq!(check(&b, "pw"), Ok(true));
}

fn argon2d(password: &[u8], salt: &[u8]) -> String {
    String::from_utf8(argon2rs::verifier::Encoded::default2d(password, salt, &[], &[]).to_u8()).unwrap()
}

#[test]
fn texts_that_would_panic_are_not_checkable() {
    let h = hash("pw".to_string()).unwrap();
    assert!(checkable_text(h.as_bytes(), 2));
    assert!(checkable_text(argon2d(b"pw", b"saltsalt").as_bytes(), 2));
    assert!(!checkable_text(b"", 2));
    assert!(!checkable_text(b"$argon2", 2));
    assert!(!checkable_text(b"$argon2i", 2));
    assert!(!checkable_text(b"$argon2i$m=1,t=1,p=1", 2));
    assert!(checkable_text(b"$argon2y$m=4096", 2));
    assert!(checkable_text(b"not a hash", 2));
    assert!(!checkable_text(b"$argon2i$m=8,t=1,p=1$c2FsdHNhbHQ", 2));
    assert!(!checkable_text(b"$argon2i$m=8,t=1,p=1$c2FsdA$aGFzaA", 2));
    assert!(checkable_text(b"$argon2i$m=8,t=1,p=1$c2FsdHNhbHQ$aGFzaA", 2));
    assert!(checkable_text(b"$argon2i$m=800,t=1,p=100$c2FsdHNhbHQ$aGFzaA", 2));
    assert!(checkable_text(b"$argon2i$m=8,t=0,p=1$c2FsdA$aGFzaA", 2));
}

#[test]
fn texts_that_decode_give_the_check_and_others_the_decoder_error() {
    assert_eq!(check("$argon2y$m=4096", "pw"), Err("Parse error at position 7".to_string()));
    assert_eq!(check("not a hash", "pw"), Err("Parse error at position 0".to_string()));
    let d = argon2d(b"pw", b"saltsalt");
    assert_eq!(check(&d, "pw"), Ok(true));
    assert_eq!(check(&d, "px"), Ok(false));
}

#[test]
fn the_right_password_signs_in() {
    let u = user_with_hash(&hash("secret".to_string()).unwrap());
    assert_eq!(login(Some(&u), "secret").ok(), Some(21));
    let e = err(login(Some(&u), "Secret"));
    assert_eq!(e.kind, ErrorKind::Unauthorized);
    assert_eq!(e.message, REFUSAL);
}

#[test]
fn an_unknown_user_is_refused_as_a_wrong_password_is() {
    let e = err(login(None, "secret"));
    assert_eq!(e.kind, ErrorKind::Unauthorized);
    assert_eq!(e.message, REFUSAL);
}

#[test]
fn a_broken_stored_hash_is_a_server_error() {
    let u = user_with_hash("$argon2y$m=4096");
    let e = err(login(Some(&u), "secret"));
    assert_eq!(e.kind, ErrorKind::InternalServerError);
    assert_eq!(e.message, "Parse error at position 7");
}

#[test]
fn any_decodable_hash_signs_in() {
    let u = user_with_hash(&argon2d(b"secret", b"a longer salt"));
    assert_eq!(login(Some(&u), "secret").ok(), Some(21));
    let e = err(login(Some(&u), "wrong"));
    assert_eq!(e.kind, ErrorKind::Unauthorized);
    assert_eq!(e.message, REFUSAL);
}

fn session(key: u128) -> Session {
    Session { key, user_id: 21, created_at: ts(0) }
}

#[test]
fn exactly_one_session_is_taken() {
    assert_eq!(session_key(&vec![session(0xabc)]).ok(), Some(0xabc));
    let e = err(session_key(&Vec::new()));
    assert_eq!(e.kind, ErrorKind::InternalServerError);
    assert_eq!(e.message, "Received 0 sessions from database, expected 1");
    let e = err(session_key(&vec![session(1), session(2)]));
    assert_eq!(e.message, "Received 2 sessions from database, expected 1");
}

#[test]
fn a_created_user_stores_a_hash_of_the_password() {
    let u = CreateUser::from_form(CreateUserForm {
        team_id: "12".to_string(),
        username: "bob".to_string(),
        password: "hunter2".to_string(),
        rights: 1000,
    })
    .unwrap();
    assert_eq!(u.team_id, Some(12));
    assert_eq!(u.username, "bob");
    assert_eq!(u.rights, 1000);
    assert_ne!(u.password_hash, "hunter2");
    assert_eq!(check(&u.password_hash, "hunter2"), Ok(true));
}

#[test]
fn a_team_id_that_is_no_number_means_no_team() {
    let u = CreateUser::from_form(CreateUserForm {
        team_id: "".to_string(),
        username: "bob".to_string(),
        password: "x".to_string(),
        rights: 0,
    })
    .unwrap();
    assert_eq!(u.team_id, None);
}

#[test]
fn an_empty_password_keeps_the_stored_one() {
    let e = EditUser::from_form(
        9,
        EditUserForm { team_id: "none".to_string(), username: "eve".to_string(), password: String::new(), rights: 1 },
    )
    .unwrap();
    assert_eq!(e.id, 9);
    assert_eq!(e.team_id, None);
    assert_eq!(e.username, "eve");
    assert!(e.password_hash.is_none());
    assert_eq!(e.rights, 1);
}

#[test]
fn a_new_password_is_hashed() {
    let e = EditUser::from_form(
        9,
        EditUserForm { team_id: "-3".to_string(), username: "eve".to_string(), password: "pw".to_string(), rights: 1 },
    )
    .unwrap();
    assert_eq!(e.team_id, Some(-3));
    assert_eq!(check(&e.password_hash.unwrap(), "pw"), Ok(true));
}

#[test]
fn an_edit_must_target_the_record_of_the_page() {
    assert!(stratum::forms::check_update_target("team", 4, 4).is_ok());
    let e = err(stratum::forms::check_update_target("team", 4, -5));
    assert_eq!(e.kind, ErrorKind::BadRequest);
    assert_eq!(e.message, "Attempted to update different team, expected 4, was given -5");
}

#[test]
fn a_given_salt_fixes_the_hash() {
    let salt = [7u8; 32];
    let a = hash_with_salt("pw", &salt);
    let b = hash_with_salt("pw", &salt);
    assert_eq!(a, b);
    assert!(a.starts_with("$argon2i$m=4096,t=3,p=1$"));
    assert_ne!(a, hash_with_salt("pw", &[8u8; 32]));
    assert_eq!(check(&a, "pw"), Ok(true));
    assert_eq!(check(&a, "pv"), Ok(false));
}

#[test]
fn a_hash_with_many_lanes_signs_in() {
    let params = argon2rs::Argon2::new(1, 65, 8 * 65, argon2rs::Variant::Argon2i).unwrap();
    let text = argon2rs::verifier::Encoded::new(params, b"secret", b"saltsalt", &[], &[]).to_u8();
    let u = user_with_hash(&String::from_utf8(text).unwrap());
    assert!(checkable_text(u.password_hash.as_bytes(), 6));
    assert_eq!(login(Some(&u), "secret").ok(), Some(21));
    assert_eq!(err(login(Some(&u), "secreT")).message, REFUSAL);
}
