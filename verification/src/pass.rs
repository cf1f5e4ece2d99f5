//! Password hashes: Argon2i sessions in argon2rs's encoded form.

use vstd::prelude::*;
use vstd::string::StringSliceAdditionalSpecFns;
use vstd::utf8::*;
use crate::text::string_from_utf8;
use crate::encoded::{SessionDecode, checkable, session_decode};

verus! {

/// The length of the random salt of a new hash.
pub const SALT_LEN: usize = 32;

/// The encoded Argon2i session that argon2rs makes of a password and a salt
/// with its default parameters, no key and no associated data
/// (`Encoded::default2i(..).to_u8()`).
pub uninterp spec fn argon2i_encoded(password: Seq<u8>, salt: Seq<u8>) -> Seq<u8>;

/// What checking a password against an encoded session gives: whether the
/// password hashes to the stored hash, or the text of the decoding error.
pub uninterp spec fn argon2_checked(hash: Seq<u8>, password: Seq<u8>) -> Result<bool, Seq<char>>;

/// A check's outcome with the error text as characters.
pub open spec fn outcome_view(r: Result<bool, String>) -> Result<bool, Seq<char>> {
    match r {
        Ok(b) => Ok(b),
        Err(t) => Err(t@),
    }
}

/// Whether a check's outcome is a match.
pub open spec fn accepts(r: Result<bool, Seq<char>>) -> bool {
    r == Ok::<bool, Seq<char>>(true)
}

/// Whether `h` is the text of an Argon2i session made from the password
/// under some salt, against which the password can be checked without a
/// panic and checks.
pub open spec fn hashes_password(h: Seq<char>, password: Seq<char>) -> bool {
    &&& exists|salt: Seq<u8>|
        salt.len() == SALT_LEN && h == decode_utf8(#[trigger] argon2i_encoded(encode_utf8(password), salt))
    &&& checkable(encode_utf8(h), encode_utf8(password).len() as int)
    &&& accepts(argon2_checked(encode_utf8(h), encode_utf8(password)))
}

/// Whether every byte is ASCII.
pub open spec fn ascii_bytes(b: Seq<u8>) -> bool {
    forall|i: int| 0 <= i < b.len() ==> #[trigger] b[i] <= 0x7f
}

/// Fills a salt from the operating system's generator, `rand::rngs::OsRng`,
/// through the fallible `RngCore::try_fill_bytes`; its error is given as its
/// `Display` text. Nothing is stated of the bytes but their number, nor of
/// when the operating system refuses.
#[verifier::external_body]
fn random_salt() -> (r: Result<Vec<u8>, String>)
    ensures
        r matches Ok(salt) ==> salt@.len() == SALT_LEN,
{
    let mut salt = [0u8; SALT_LEN];
    match rand::RngCore::try_fill_bytes(&mut rand::rngs::OsRng, &mut salt[..]) {
        Ok(()) => Ok(salt.to_vec()),
        Err(e) => Err(e.to_string()),
    }
}

/// Calls `argon2rs::verifier::Encoded::default2i(password, salt, &[], &[])`
/// and serialises the session with `to_u8`. The bytes are named by
/// `argon2i_encoded`; as the source of `to_u8` shows, they are ASCII (a
/// `format!` of fixed text, decimal numbers and base64 without padding).
/// `Argon2::hash` asserts a password of at most `u32::MAX` bytes and a salt
/// of 8 to `u32::MAX` bytes, which `requires` demands. As argon2rs
/// documents, `to_u8` serialises the session so that `Encoded::from_u8`
/// recovers it, and `verify` checks a password against the hash of the
/// session: checking the same password against the bytes succeeds. As
/// `to_u8` shows, the text is `$argon2i$m=4096,t=3,p=1` (the defaults of
/// `Argon2::default`), no `keyid` or `data` part (both are empty), then
/// `$`, the salt and `$` and the 32-byte hash, each in unpadded base64 of
/// `LUT64`, which `from_u8` decodes back to the salt's length.
#[verifier::external_body]
fn argon2i_encode(password: &[u8], salt: &[u8]) -> (e: Vec<u8>)
    requires
        password@.len() <= u32::MAX,
        8 <= salt@.len() <= u32::MAX,
    ensures
        e@ == argon2i_encoded(password@, salt@),
        ascii_bytes(e@),
        session_decode(e@) == (SessionDecode::Decodes {
            kib: 4096,
            passes: 3,
            lanes: 1,
            key_len: 0,
            data_len: 0,
            salt_len: salt@.len() as int,
        }),
        accepts(argon2_checked(e@, password@)),
{
    argon2rs::verifier::Encoded::default2i(password, salt, &[], &[]).to_u8()
}

proof fn lemma_ascii_valid_utf8(b: Seq<u8>)
    requires
        ascii_bytes(b),
    ensures
        valid_utf8(b),
    decreases b.len(),
{
    if b.len() > 0 {
        let first = b[0];
        assert(first & 0x7F == first) by (bit_vector)
            requires
                first <= 0x7f,
        ;
        assert(is_leading_byte_width_1(b[0]));
        assert(valid_first_scalar(b));
        let rest = pop_first_scalar(b);
        assert(rest =~= b.subrange(1, b.len() as int));
        assert forall|i: int| 0 <= i < rest.len() implies #[trigger] rest[i] <= 0x7f by {
            assert(rest[i] == b[i + 1]);
        }
        lemma_ascii_valid_utf8(rest);
    }
}

/// Hashes a password with Argon2i under the given salt: the encoded session
/// as text.
pub fn hash_with_salt(pass: &str, salt: &[u8]) -> (h: String)
    requires
        salt@.len() == SALT_LEN,
        encode_utf8(pass@).len() <= u32::MAX,
    ensures
        h@ == decode_utf8(argon2i_encoded(encode_utf8(pass@), salt@)),
        hashes_password(h@, pass@),
{
    let encoded = argon2i_encode(pass.as_bytes(), salt);
    proof {
        lemma_ascii_valid_utf8(encoded@);
        decode_utf8_encode_utf8(encoded@);
    }
    match string_from_utf8(encoded) {
        Some(s) => s,
        None => vstd::pervasive::unreached(),
    }
}

/// Hashes a password with Argon2i under a fresh random salt
/// (`hash_with_salt`); the result is the encoded session as text, or the
/// text of the error with which the operating system refused randomness.
pub fn hash(pass: String) -> (r: Result<String, String>)
    requires
        encode_utf8(pass@).len() <= u32::MAX,
    ensures
        r matches Ok(h) ==> hashes_password(h@, pass@),
{
    match random_salt() {
        Ok(salt) => Ok(hash_with_salt(pass.as_str(), salt.as_slice())),
        Err(e) => Err(e),
    }
}

/// Checks a password against a stored hash: decodes the hash with
/// `argon2rs::verifier::Encoded::from_u8` and, if that succeeds, gives
/// `Encoded::verify` of the password; a decoding error is given as its
/// `Display` text. The outcome is named by `argon2_checked`; it is `Ok`
/// exactly where the text decodes (`session_decode`). `requires` admits
/// the texts and passwords on which neither the decoder nor `verify`
/// panics (`checkable`).
#[verifier::external_body]
pub fn check(hash: &str, submitted: &str) -> (r: Result<bool, String>)
    requires
        checkable(hash.spec_bytes(), submitted.spec_bytes().len() as int),
    ensures
        r is Ok <==> session_decode(hash.spec_bytes()) is Decodes,
        outcome_view(r) == argon2_checked(hash.spec_bytes(), submitted.spec_bytes()),
{
    match argon2rs::verifier::Encoded::from_u8(hash.as_bytes()) {
        Ok(e) => Ok(e.verify(submitted.as_bytes())),
        Err(e) => Err(e.to_string()),
    }
}

} // verus!
