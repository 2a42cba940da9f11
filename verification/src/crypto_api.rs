//! The `crypto` module of templates: password hashing, secure random tokens,
//! SHA-256, and constant-time comparison.

use argon2::{PasswordHasher, PasswordVerifier};
use sha2::Digest;
use vstd::prelude::*;
use crate::text;

verus! {

pub const MAX_TOKEN_BYTES: usize = 1024;

pub const DEFAULT_TOKEN_BYTES: usize = 32;

// ---- hexadecimal ----------------------------------------------------------------

/// Bytes in hexadecimal, two lowercase digits each.
pub open spec fn hex_text(bytes: Seq<u8>) -> Seq<char>
    decreases bytes.len(),
{
    if bytes.len() == 0 {
        Seq::empty()
    } else {
        hex_text(bytes.drop_last()) + seq![
            text::hex_lower(bytes.last() as int / 16),
            text::hex_lower(bytes.last() as int % 16),
        ]
    }
}

/// Bytes in hexadecimal.
pub fn hex_encode(bytes: &[u8]) -> (s: String)
    ensures
        s@ == hex_text(bytes@),
{
    let mut out = String::new();
    let mut i: usize = 0;
    assert(bytes@.take(0) =~= Seq::empty());
    while i < bytes.len()
        invariant
            i <= bytes@.len(),
            out@ == hex_text(bytes@.take(i as int)),
        decreases bytes@.len() - i,
    {
        let ghost done = out@;
        let b = bytes[i];
        out.push(text::hex_digit_lower(b / 16));
        out.push(text::hex_digit_lower(b % 16));
        assert(bytes@.take(i + 1).drop_last() =~= bytes@.take(i as int));
        assert(out@ =~= done + seq![
            text::hex_lower(b as int / 16),
            text::hex_lower(b as int % 16),
        ]);
        i = i + 1;
    }
    assert(bytes@.take(i as int) =~= bytes@);
    out
}

/// The value of a lowercase hexadecimal digit.
pub open spec fn hex_value(c: char) -> int {
    if '0' <= c <= '9' {
        c as int - '0' as int
    } else {
        c as int - 'a' as int + 10
    }
}

/// The bytes that pairs of digits write.
pub open spec fn hex_read(s: Seq<char>) -> Seq<u8>
    decreases s.len(),
{
    if s.len() < 2 {
        Seq::empty()
    } else {
        hex_read(s.take(s.len() - 2)).push(
            (hex_value(s[s.len() - 2]) * 16 + hex_value(s[s.len() - 1])) as u8,
        )
    }
}

/// Hexadecimal reads back, and is twice as long: no two byte strings look the same.
pub proof fn law_hex_reads_back(bytes: Seq<u8>)
    ensures
        hex_read(hex_text(bytes)) == bytes,
        hex_text(bytes).len() == 2 * bytes.len(),
    decreases bytes.len(),
{
    if bytes.len() > 0 {
        let front = bytes.drop_last();
        law_hex_reads_back(front);
        let s = hex_text(bytes);
        assert(s.take(s.len() - 2) =~= hex_text(front));
        lemma_hex_pair(bytes.last());
        assert(front.push(bytes.last()) =~= bytes);
    }
}

proof fn lemma_hex_pair(b: u8)
    ensures
        hex_value(text::hex_lower(b as int / 16)) * 16 + hex_value(text::hex_lower(b as int % 16))
            == b as int,
{
    let hi = b as int / 16;
    let lo = b as int % 16;
    assert(hex_value(text::hex_lower(hi)) == hi);
    assert(hex_value(text::hex_lower(lo)) == lo);
}

// ---- SHA-256 --------------------------------------------------------------------

/// The SHA-256 digest of a byte string.
pub uninterp spec fn sha256_of(bytes: Seq<u8>) -> Seq<u8>;

/// `sha2::Sha256::digest`: the 32 bytes of the digest.
#[verifier::external_body]
fn sha256_digest(bytes: &[u8]) -> (digest: Vec<u8>)
    ensures
        digest@ == sha256_of(bytes@),
        digest@.len() == 32,
{
    sha2::Sha256::digest(bytes).to_vec()
}

/// The SHA-256 digest of a byte string, in hexadecimal.
pub fn sha256(input: &[u8]) -> (s: String)
    ensures
        s@ == hex_text(sha256_of(input@)),
        s@.len() == 64,
{
    let digest = sha256_digest(input);
    proof {
        law_hex_reads_back(digest@);
    }
    hex_encode(digest.as_slice())
}

// ---- comparison -----------------------------------------------------------------

/// Whether two byte strings are equal, looking at every byte whatever the first
/// difference is.
pub fn constant_time_equals(a: &[u8], b: &[u8]) -> (r: bool)
    ensures
        r == (a@ == b@),
{
    if a.len() != b.len() {
        return false;
    }
    let mut diff: u8 = 0;
    let mut i: usize = 0;
    while i < a.len()
        invariant
            i <= a@.len(),
            a@.len() == b@.len(),
            diff == 0 <==> (forall|k: int| 0 <= k < i ==> a@[k] == b@[k]),
        decreases a@.len() - i,
    {
        let x = a[i];
        let y = b[i];
        let ghost before = diff;
        diff = diff | (x ^ y);
        assert((before | (x ^ y)) == 0 <==> before == 0 && x == y) by (bit_vector);
        assert(x == a@[i as int] && y == b@[i as int]);
        i = i + 1;
    }
    if diff == 0 {
        assert(a@ =~= b@);
    }
    diff == 0
}

// ---- random tokens --------------------------------------------------------------

/// `getrandom::fill`: as many random bytes as asked for, or the system's words for
/// why there are none.
#[verifier::external_body]
fn random_bytes(n: usize) -> (r: Result<Vec<u8>, String>)
    ensures
        r is Ok ==> r->Ok_0@.len() == n,
{
    let mut buf = vec![0u8; n];
    match getrandom::fill(&mut buf) {
        Ok(()) => Ok(buf),
        Err(e) => Err(e.to_string()),
    }
}

/// How many bytes a token asks for.
pub open spec fn token_size(n_bytes: Option<usize>) -> usize {
    match n_bytes {
        Some(n) => n,
        None => DEFAULT_TOKEN_BYTES,
    }
}

/// A token from what the random source gave.
pub fn token_from(random: Result<Vec<u8>, String>) -> (r: Result<String, String>)
    ensures
        match random {
            Ok(bytes) => r is Ok && r->Ok_0@ == hex_text(bytes@),
            Err(e) => r is Err && r->Err_0@ == "random_token failed: "@ + e@,
        },
{
    match random {
        Ok(bytes) => Ok(hex_encode(bytes.as_slice())),
        Err(e) => Err(text::join2("random_token failed: ", e.as_str())),
    }
}

/// A random token in hexadecimal: two digits for each of 1 to 1024 bytes, 32 unless
/// told otherwise. Which token, and whether the random source fails, is chance.
pub fn random_token(n_bytes: Option<usize>) -> (r: Result<String, String>)
    ensures
        ({
            let n = token_size(n_bytes);
            if n == 0 || n > MAX_TOKEN_BYTES {
                r is Err && r->Err_0@ == "random_token: byte count must be 1..=1024"@
            } else {
                match r {
                    Ok(s) => exists|bytes: Seq<u8>|
                        bytes.len() == n && s@ == #[trigger] hex_text(bytes),
                    Err(e) => "random_token failed: "@.is_prefix_of(e@),
                }
            }
        }),
{
    let n: usize = match n_bytes {
        Some(n) => n,
        None => DEFAULT_TOKEN_BYTES,
    };
    if n == 0 || n > MAX_TOKEN_BYTES {
        return Err("random_token: byte count must be 1..=1024".to_string());
    }
    let random = random_bytes(n);
    let r = token_from(random);
    proof {
        if r is Err {
            assert("random_token failed: "@.is_prefix_of(r->Err_0@));
        }
    }
    r
}

// ---- passwords ------------------------------------------------------------------

/// A password is the one a hash was made from, as far as the hash tells.
pub uninterp spec fn password_matches(password: Seq<u8>, hash: Seq<char>) -> bool;

/// `argon2::Argon2::hash_password` with the default parameters and a random salt:
/// a hash in the PHC string format that the password matches, or why there is
/// none. Which hash is chance.
#[verifier::external_body]
fn argon2_hash(password: &[u8]) -> (r: Result<String, String>)
    ensures
        r is Ok ==> password_matches(password@, r->Ok_0@),
{
    match argon2::Argon2::default().hash_password(password) {
        Ok(hash) => Ok(hash.to_string()),
        Err(e) => Err(e.to_string()),
    }
}

/// `argon2::Argon2::verify_password` against a hash in the PHC string format:
/// whether the password matches; a hash that cannot be read matches nothing. No
/// answer where memory for the computation could not be had.
#[verifier::external_body]
fn argon2_verify(password: &[u8], hash: &str) -> (r: Option<bool>)
    ensures
        r is Some ==> r->0 == password_matches(password@, hash@),
{
    match PasswordVerifier::<str>::verify_password(&argon2::Argon2::default(), password, hash) {
        Ok(()) => Some(true),
        Err(argon2::password_hash::Error::OutOfMemory) => None,
        Err(_) => Some(false),
    }
}

/// The hash of a password, to be stored in its place.
pub fn password_hash(password: &str) -> (r: Result<String, String>)
    ensures
        match r {
            Ok(hash) => password_matches(vstd::utf8::encode_utf8(password@), hash@),
            Err(e) => "password_hash failed: "@.is_prefix_of(e@),
        },
{
    match argon2_hash(password.as_bytes()) {
        Ok(hash) => Ok(hash),
        Err(e) => {
            let message = text::join2("password_hash failed: ", e.as_str());
            assert("password_hash failed: "@.is_prefix_of(message@));
            Err(message)
        },
    }
}

/// What an attempt to verify means: no answer is no match.
pub fn accepted(answer: Option<bool>) -> (r: bool)
    ensures
        r == (answer == Some(true)),
{
    match answer {
        Some(b) => b,
        None => false,
    }
}

/// Whether a password is the one that `hash` was made from. Never true of another
/// password; false also where the computation ran out of memory.
pub fn password_verify(password: &str, hash: &str) -> (r: bool)
    ensures
        r ==> password_matches(vstd::utf8::encode_utf8(password@), hash@),
{
    accepted(argon2_verify(password.as_bytes(), hash))
}

/// A token has as many bytes as were asked for, and 32 where none were.
pub proof fn law_tokens_have_the_size_asked_for(n: usize)
    ensures
        token_size(Some(n)) == n,
        token_size(None) == 32,
        MAX_TOKEN_BYTES == 1024,
{
}

/// Every byte is two lowercase digits, the high half first, in order.
pub proof fn law_hex_is_written_byte_by_byte(bytes: Seq<u8>, b: u8, i: int)
    ensures
        hex_text(Seq::empty()) == Seq::<char>::empty(),
        hex_text(bytes.push(b)).len() == hex_text(bytes).len() + 2,
        hex_text(bytes).is_prefix_of(hex_text(bytes.push(b))),
        0 <= i < hex_text(bytes).len() ==> '0' <= hex_text(bytes)[i] <= '9' || 'a' <= hex_text(
            bytes,
        )[i] <= 'f',
    decreases bytes.len(),
{
    assert(bytes.push(b).drop_last() =~= bytes);
    assert(hex_text(bytes) =~= hex_text(bytes.push(b)).take(hex_text(bytes).len() as int));
    if bytes.len() > 0 {
        let front = bytes.drop_last();
        law_hex_is_written_byte_by_byte(front, b, i);
        let n = hex_text(front).len() as int;
        if n <= i < hex_text(bytes).len() {
            let hi = text::hex_lower(bytes.last() as int / 16);
            let lo = text::hex_lower(bytes.last() as int % 16);
            assert(hex_text(bytes)[i] == hi || hex_text(bytes)[i] == lo);
        }
    }
}

} // verus!
