//! What argon2rs's decoder, `Encoded::from_u8`, does with the text of a
//! stored session, and which texts can be checked without a panic.
//!
//! The decoder reads `$argon2`, the variant `d` or `i`, `$m=`, `,t=` and
//! `,p=` with a decimal `u32` after each, an optional `,keyid=` and an
//! optional `,data=` part in base64, then `$`, the salt in base64, `$` and
//! the hash in base64. Before each literal it asserts that text is left,
//! and it indexes the variant byte without a bound check: a text that ends
//! at one of those places panics instead of giving an error.

use vstd::prelude::*;

verus! {

/// What decoding a session text does.
pub enum SessionDecode {
    /// The decoder panics.
    Panics,
    /// The decoder, or the check of the parameters, gives an error.
    Fails,
    /// The text decodes: the memory in KiB, the passes, the lanes, and the
    /// lengths of the key, the associated data and the salt.
    Decodes { kib: int, passes: int, lanes: int, key_len: int, data_len: int, salt_len: int },
}

/// The bytes of `$argon2`.
pub open spec fn lit_argon2() -> Seq<u8> {
    seq![36u8, 97u8, 114u8, 103u8, 111u8, 110u8, 50u8]
}

/// The bytes of `$m=`.
pub open spec fn lit_m() -> Seq<u8> {
    seq![36u8, 109u8, 61u8]
}

/// The bytes of `,t=`.
pub open spec fn lit_t() -> Seq<u8> {
    seq![44u8, 116u8, 61u8]
}

/// The bytes of `,p=`.
pub open spec fn lit_p() -> Seq<u8> {
    seq![44u8, 112u8, 61u8]
}

/// The bytes of `,keyid=`.
pub open spec fn lit_keyid() -> Seq<u8> {
    seq![44u8, 107u8, 101u8, 121u8, 105u8, 100u8, 61u8]
}

/// The bytes of `,data=`.
pub open spec fn lit_data() -> Seq<u8> {
    seq![44u8, 100u8, 97u8, 116u8, 97u8, 61u8]
}

/// Whether the text holds `lit` at `pos`.
pub open spec fn lit_at(e: Seq<u8>, pos: int, lit: Seq<u8>) -> bool {
    0 <= pos && pos + lit.len() <= e.len() && e.subrange(pos, pos + lit.len()) == lit
}

/// Whether a byte is an ASCII digit.
pub open spec fn is_digit(c: u8) -> bool {
    48 <= c <= 57
}

/// Where the run of digits that starts at `pos` ends.
pub open spec fn digits_end(e: Seq<u8>, pos: int) -> int
    decreases e.len() - pos,
{
    if 0 <= pos < e.len() && is_digit(e[pos]) {
        digits_end(e, pos + 1)
    } else {
        pos
    }
}

/// The number that the digits from `a` to `b` write.
pub open spec fn digits_number(e: Seq<u8>, a: int, b: int) -> int
    decreases b - a,
{
    if b <= a {
        0
    } else {
        digits_number(e, a, b - 1) * 10 + (e[b - 1] - 48)
    }
}

/// Whether the digits from `a` to `b` read as a `u32`, as `str::parse`
/// reads them: at least one digit, and a value that fits.
pub open spec fn u32_at(e: Seq<u8>, a: int, b: int) -> bool {
    b > a && digits_number(e, a, b) <= u32::MAX
}

/// Where the part that starts at `pos` ends: at the first `stop` byte, or
/// at the end of the text.
pub open spec fn part_end(e: Seq<u8>, pos: int, stop: u8) -> int
    decreases e.len() - pos,
{
    if 0 <= pos < e.len() && e[pos] != stop {
        part_end(e, pos + 1, stop)
    } else {
        pos
    }
}

/// Whether a byte is one of argon2rs's base64 characters.
pub open spec fn is_base64(c: u8) -> bool {
    ||| 65 <= c <= 90
    ||| 97 <= c <= 122
    ||| 48 <= c <= 57
    ||| c == 43
    ||| c == 47
}

/// Whether the bytes from `a` to `b` decode as unpadded base64: not empty,
/// a length that is not one more than a multiple of four, and only base64
/// characters.
pub open spec fn base64_part(e: Seq<u8>, a: int, b: int) -> bool {
    &&& b - a > 0
    &&& (b - a) % 4 != 1
    &&& forall|i: int| a <= i < b ==> is_base64(#[trigger] e[i])
}

/// How many bytes `n` base64 characters decode to.
pub open spec fn base64_len(n: int) -> int {
    n / 4 * 3 + if n % 4 == 2 {
        1int
    } else if n % 4 == 3 {
        2int
    } else {
        0int
    }
}

/// Decoding from the `$m=` part on.
pub open spec fn decode_params(e: Seq<u8>) -> SessionDecode {
    let m_end = digits_end(e, 11);
    if !u32_at(e, 11, m_end) {
        SessionDecode::Fails
    } else if m_end >= e.len() {
        SessionDecode::Panics
    } else if !lit_at(e, m_end, lit_t()) {
        SessionDecode::Fails
    } else {
        let t_end = digits_end(e, m_end + 3);
        if !u32_at(e, m_end + 3, t_end) {
            SessionDecode::Fails
        } else if t_end >= e.len() {
            SessionDecode::Panics
        } else if !lit_at(e, t_end, lit_p()) {
            SessionDecode::Fails
        } else {
            let p_end = digits_end(e, t_end + 3);
            if !u32_at(e, t_end + 3, p_end) {
                SessionDecode::Fails
            } else {
                decode_key(
                    e,
                    p_end,
                    digits_number(e, 11, m_end),
                    digits_number(e, m_end + 3, t_end),
                    digits_number(e, t_end + 3, p_end),
                )
            }
        }
    }
}

/// Decoding from the optional `,keyid=` part on.
pub open spec fn decode_key(e: Seq<u8>, pos: int, kib: int, passes: int, lanes: int) -> SessionDecode {
    if pos >= e.len() {
        SessionDecode::Panics
    } else if lit_at(e, pos, lit_keyid()) {
        let b = part_end(e, pos + 7, 44u8);
        if !base64_part(e, pos + 7, b) {
            SessionDecode::Fails
        } else {
            decode_data(e, b, kib, passes, lanes, base64_len(b - (pos + 7)))
        }
    } else {
        decode_data(e, pos, kib, passes, lanes, 0)
    }
}

/// Decoding from the optional `,data=` part on.
pub open spec fn decode_data(e: Seq<u8>, pos: int, kib: int, passes: int, lanes: int, key_len: int) -> SessionDecode {
    if pos >= e.len() {
        SessionDecode::Panics
    } else if lit_at(e, pos, lit_data()) {
        let b = part_end(e, pos + 6, 36u8);
        if !base64_part(e, pos + 6, b) {
            SessionDecode::Fails
        } else {
            decode_salt(e, b, kib, passes, lanes, key_len, base64_len(b - (pos + 6)))
        }
    } else {
        decode_salt(e, pos, kib, passes, lanes, key_len, 0)
    }
}

/// Decoding from the `$` before the salt on, and the check of the
/// parameters that `Argon2::new` makes.
pub open spec fn decode_salt(
    e: Seq<u8>,
    pos: int,
    kib: int,
    passes: int,
    lanes: int,
    key_len: int,
    data_len: int,
) -> SessionDecode {
    if pos >= e.len() {
        SessionDecode::Panics
    } else if e[pos] != 36u8 {
        SessionDecode::Fails
    } else {
        let b = part_end(e, pos + 1, 36u8);
        if !base64_part(e, pos + 1, b) {
            SessionDecode::Fails
        } else if b >= e.len() {
            SessionDecode::Panics
        } else if !base64_part(e, b + 1, e.len() as int) {
            SessionDecode::Fails
        } else if passes < 1 || lanes < 1 || lanes > 0xff_ffff || kib < 8 * lanes {
            SessionDecode::Fails
        } else {
            SessionDecode::Decodes {
                kib,
                passes,
                lanes,
                key_len,
                data_len,
                salt_len: base64_len(b - (pos + 1)),
            }
        }
    }
}

/// What `Encoded::from_u8` does with a text.
pub open spec fn session_decode(e: Seq<u8>) -> SessionDecode {
    if e.len() == 0 {
        SessionDecode::Panics
    } else if !lit_at(e, 0, lit_argon2()) {
        SessionDecode::Fails
    } else if e.len() <= 7 {
        SessionDecode::Panics
    } else if e[7] != 100u8 && e[7] != 105u8 {
        SessionDecode::Fails
    } else if e.len() <= 8 {
        SessionDecode::Panics
    } else if !lit_at(e, 8, lit_m()) {
        SessionDecode::Fails
    } else {
        decode_params(e)
    }
}

/// Whether checking a password of `password_len` bytes against the text
/// runs without a panic: the text decodes without one, and a decoded
/// session has a salt of 8 to `u32::MAX` bytes, a key of at most 32 bytes
/// and associated data of at most `u32::MAX` bytes (which `Argon2::hash`
/// asserts, with a password of at most `u32::MAX` bytes).
pub open spec fn checkable(e: Seq<u8>, password_len: int) -> bool {
    checkable_outcome(session_decode(e), password_len)
}

/// Whether a decoding outcome lets a password of `password_len` bytes be
/// checked without a panic.
pub open spec fn checkable_outcome(d: SessionDecode, password_len: int) -> bool {
    match d {
        SessionDecode::Panics => false,
        SessionDecode::Fails => true,
        SessionDecode::Decodes { kib, passes, lanes, key_len, data_len, salt_len } => {
            &&& 8 <= salt_len <= u32::MAX
            &&& key_len <= 32
            &&& data_len <= u32::MAX
            &&& password_len <= u32::MAX
        },
    }
}

fn digits_end_at(e: &[u8], pos: usize) -> (r: usize)
    requires
        pos <= e@.len(),
    ensures
        r == digits_end(e@, pos as int),
        pos <= r <= e@.len(),
        forall|i: int| pos <= i < r ==> is_digit(#[trigger] e@[i]),
{
    let mut i = pos;
    while i < e.len() && 48 <= e[i] && e[i] <= 57
        invariant
            pos <= i <= e@.len(),
            digits_end(e@, i as int) == digits_end(e@, pos as int),
            forall|j: int| pos <= j < i ==> is_digit(#[trigger] e@[j]),
        decreases e@.len() - i,
    {
        i = i + 1;
    }
    i
}

fn number_at(e: &[u8], a: usize, b: usize) -> (r: Option<u32>)
    requires
        a <= b <= e@.len(),
        forall|i: int| a <= i < b ==> is_digit(#[trigger] e@[i]),
    ensures
        r is Some <==> u32_at(e@, a as int, b as int),
        r matches Some(v) ==> v == digits_number(e@, a as int, b as int),
{
    if b == a {
        return None;
    }
    let mut acc: u64 = 0;
    let mut over = false;
    let mut i = a;
    while i < b
        invariant
            a <= i <= b <= e@.len(),
            forall|j: int| a <= j < b ==> is_digit(#[trigger] e@[j]),
            digits_number(e@, a as int, i as int) >= 0,
            !over ==> acc == digits_number(e@, a as int, i as int) && acc <= u32::MAX,
            over ==> digits_number(e@, a as int, i as int) > u32::MAX,
        decreases b - i,
    {
        let d = e[i] - 48;
        proof {
            assert(is_digit(e@[i as int]));
        }
        if !over {
            let next = acc * 10 + d as u64;
            if next > 0xffff_ffff {
                over = true;
            } else {
                acc = next;
            }
        }
        i = i + 1;
    }
    if over {
        None
    } else {
        Some(acc as u32)
    }
}

fn part_end_at(e: &[u8], pos: usize, stop: u8) -> (r: usize)
    requires
        pos <= e@.len(),
    ensures
        r == part_end(e@, pos as int, stop),
        pos <= r <= e@.len(),
{
    let mut i = pos;
    while i < e.len() && e[i] != stop
        invariant
            pos <= i <= e@.len(),
            part_end(e@, i as int, stop) == part_end(e@, pos as int, stop),
        decreases e@.len() - i,
    {
        i = i + 1;
    }
    i
}

fn base64_part_at(e: &[u8], a: usize, b: usize) -> (r: bool)
    requires
        a <= b <= e@.len(),
    ensures
        r == base64_part(e@, a as int, b as int),
{
    if b - a == 0 || (b - a) % 4 == 1 {
        return false;
    }
    let mut i = a;
    while i < b
        invariant
            a <= i <= b <= e@.len(),
            forall|j: int| a <= j < i ==> is_base64(#[trigger] e@[j]),
        decreases b - i,
    {
        let c = e[i];
        if !((65 <= c && c <= 90) || (97 <= c && c <= 122) || (48 <= c && c <= 57) || c == 43 || c == 47) {
            return false;
        }
        i = i + 1;
    }
    true
}

fn lit_at_pos(e: &[u8], pos: usize, lit: &[u8]) -> (r: bool)
    ensures
        r == lit_at(e@, pos as int, lit@),
{
    if lit.len() > e.len() || pos > e.len() - lit.len() {
        return false;
    }
    let mut i: usize = 0;
    while i < lit.len()
        invariant
            i <= lit@.len(),
            pos + lit@.len() <= e@.len(),
            e@.len() == e.len(),
            forall|j: int| 0 <= j < i ==> e@[pos + j] == lit@[j],
        decreases lit@.len() - i,
    {
        if e[pos + i] != lit[i] {
            proof {
                assert(e@.subrange(pos as int, pos + lit@.len())[i as int] != lit@[i as int]);
            }
            return false;
        }
        i = i + 1;
    }
    proof {
        assert(e@.subrange(pos as int, pos + lit@.len()) =~= lit@);
    }
    true
}

fn base64_len_of(n: usize) -> (r: usize)
    ensures
        r == base64_len(n as int),
{
    n / 4 * 3 + if n % 4 == 2 {
        1
    } else if n % 4 == 3 {
        2
    } else {
        0
    }
}

fn salt_stage(
    e: &[u8],
    pos: usize,
    kib: u32,
    passes: u32,
    lanes: u32,
    key_len: usize,
    data_len: usize,
    password_len: usize,
) -> (r: bool)
    requires
        pos <= e@.len(),
    ensures
        r == checkable_outcome(
            decode_salt(e@, pos as int, kib as int, passes as int, lanes as int, key_len as int, data_len as int),
            password_len as int,
        ),
{
    let len = e.len();
    if pos >= len {
        return false;
    }
    if e[pos] != 36 {
        return true;
    }
    let b = part_end_at(e, pos + 1, 36);
    if !base64_part_at(e, pos + 1, b) {
        return true;
    }
    if b >= len {
        return false;
    }
    if !base64_part_at(e, b + 1, len) {
        return true;
    }
    if passes < 1 || lanes < 1 || lanes > 0xff_ffff || (kib as u64) < 8 * (lanes as u64) {
        return true;
    }
    let salt_len = base64_len_of(b - (pos + 1));
    8 <= salt_len && salt_len as u64 <= 0xffff_ffff && key_len <= 32 && data_len as u64 <= 0xffff_ffff
        && password_len as u64 <= 0xffff_ffff
}

fn data_stage(
    e: &[u8],
    pos: usize,
    kib: u32,
    passes: u32,
    lanes: u32,
    key_len: usize,
    password_len: usize,
) -> (r: bool)
    requires
        pos <= e@.len(),
    ensures
        r == checkable_outcome(
            decode_data(e@, pos as int, kib as int, passes as int, lanes as int, key_len as int),
            password_len as int,
        ),
{
    let lit_data_b: [u8; 6] = [44, 100, 97, 116, 97, 61];
    proof {
        assert(lit_data_b@ =~= lit_data());
    }
    if pos >= e.len() {
        return false;
    }
    if lit_at_pos(e, pos, lit_data_b.as_slice()) {
        let b = part_end_at(e, pos + 6, 36);
        if !base64_part_at(e, pos + 6, b) {
            return true;
        }
        salt_stage(e, b, kib, passes, lanes, key_len, base64_len_of(b - (pos + 6)), password_len)
    } else {
        salt_stage(e, pos, kib, passes, lanes, key_len, 0, password_len)
    }
}

fn key_stage(e: &[u8], pos: usize, kib: u32, passes: u32, lanes: u32, password_len: usize) -> (r: bool)
    requires
        pos <= e@.len(),
    ensures
        r == checkable_outcome(
            decode_key(e@, pos as int, kib as int, passes as int, lanes as int),
            password_len as int,
        ),
{
    let lit_keyid_b: [u8; 7] = [44, 107, 101, 121, 105, 100, 61];
    proof {
        assert(lit_keyid_b@ =~= lit_keyid());
    }
    if pos >= e.len() {
        return false;
    }
    if lit_at_pos(e, pos, lit_keyid_b.as_slice()) {
        let b = part_end_at(e, pos + 7, 44);
        if !base64_part_at(e, pos + 7, b) {
            return true;
        }
        data_stage(e, b, kib, passes, lanes, base64_len_of(b - (pos + 7)), password_len)
    } else {
        data_stage(e, pos, kib, passes, lanes, 0, password_len)
    }
}

fn params_stage(e: &[u8], password_len: usize) -> (r: bool)
    requires
        11 <= e@.len(),
    ensures
        r == checkable_outcome(decode_params(e@), password_len as int),
{
    let lit_t_b: [u8; 3] = [44, 116, 61];
    let lit_p_b: [u8; 3] = [44, 112, 61];
    proof {
        assert(lit_t_b@ =~= lit_t());
        assert(lit_p_b@ =~= lit_p());
    }
    let len = e.len();
    let m_end = digits_end_at(e, 11);
    let kib = match number_at(e, 11, m_end) {
        Some(v) => v,
        None => {
            return true;
        },
    };
    if m_end >= len {
        return false;
    }
    if !lit_at_pos(e, m_end, lit_t_b.as_slice()) {
        return true;
    }
    let t_end = digits_end_at(e, m_end + 3);
    let passes = match number_at(e, m_end + 3, t_end) {
        Some(v) => v,
        None => {
            return true;
        },
    };
    if t_end >= len {
        return false;
    }
    if !lit_at_pos(e, t_end, lit_p_b.as_slice()) {
        return true;
    }
    let p_end = digits_end_at(e, t_end + 3);
    let lanes = match number_at(e, t_end + 3, p_end) {
        Some(v) => v,
        None => {
            return true;
        },
    };
    key_stage(e, p_end, kib, passes, lanes, password_len)
}

/// Whether checking a password of `password_len` bytes against the stored
/// text `e` runs without a panic.
pub fn checkable_text(e: &[u8], password_len: usize) -> (r: bool)
    ensures
        r == checkable(e@, password_len as int),
{
    let lit_argon2_b: [u8; 7] = [36, 97, 114, 103, 111, 110, 50];
    let lit_m_b: [u8; 3] = [36, 109, 61];
    proof {
        assert(lit_argon2_b@ =~= lit_argon2());
        assert(lit_m_b@ =~= lit_m());
    }
    let len = e.len();
    if len == 0 {
        return false;
    }
    if !lit_at_pos(e, 0, lit_argon2_b.as_slice()) {
        return true;
    }
    if len <= 7 {
        return false;
    }
    if e[7] != 100 && e[7] != 105 {
        return true;
    }
    if len <= 8 {
        return false;
    }
    if !lit_at_pos(e, 8, lit_m_b.as_slice()) {
        return true;
    }
    params_stage(e, password_len)
}

} // verus!
