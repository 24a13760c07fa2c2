use vstd::prelude::*;
use argon2::password_hash::rand_core::OsRng;
use argon2::password_hash::{PasswordHash, PasswordHasher, PasswordVerifier, Salt, SaltString};
use argon2::Argon2;
use crate::text::{chars_of, string_of};

verus! {

#[verifier::external_type_specification]
#[verifier::external_body]
pub struct ExPasswordHashError(argon2::password_hash::Error);

/// Whether argon2's verifier (the default instance, without a secret key)
/// accepts `password` for the PHC string `encoded`: the string parses, and
/// hashing the password with the algorithm, parameters and salt it records
/// gives the hash it records.
pub uninterp spec fn argon2_accepts(password: Seq<char>, encoded: Seq<char>) -> bool;

/// A character of the standard Base64 alphabet.
pub open spec fn b64_char(c: char) -> bool {
    ('A' <= c && c <= 'Z') || ('a' <= c && c <= 'z') || ('0' <= c && c <= '9') || c == '+' || c
        == '/'
}

/// The unpadded standard Base64 text of sixteen bytes: twenty-two characters
/// of the alphabet, the last carrying two data bits and four zero bits.
pub open spec fn b64_of_16_bytes(t: Seq<char>) -> bool {
    &&& t.len() == 22
    &&& forall|i: int| 0 <= i < 22 ==> b64_char(#[trigger] t[i])
    &&& (t[21] == 'A' || t[21] == 'Q' || t[21] == 'g' || t[21] == 'w')
}

/// The start of every PHC string that the default Argon2 instance writes:
/// the algorithm (Argon2id), the version (0x13) and the default parameters
/// (19456 KiB of memory, two passes, one lane), each after a `$`.
pub open spec fn argon2id_prefix() -> Seq<char> {
    "$argon2id$v=19$m=19456,t=2,p=1$"@
}

/// `h` is the PHC string of a default Argon2id hash with salt text `salt`:
/// the prefix, the salt, a `$`, and the 32-byte hash in unpadded Base64
/// (forty-three characters).
pub open spec fn argon2id_phc(h: Seq<char>, salt: Seq<char>) -> bool {
    let n: int = (argon2id_prefix().len() + salt.len()) as int;
    &&& h.len() == n + 44
    &&& h.subrange(0, argon2id_prefix().len() as int) == argon2id_prefix()
    &&& h.subrange(argon2id_prefix().len() as int, n) == salt
    &&& h[n] == '$'
    &&& forall|i: int| n < i < h.len() ==> b64_char(#[trigger] h[i])
}

/// The shape of a stored password hash: a default Argon2id PHC string whose
/// salt is sixteen bytes in unpadded Base64.
pub open spec fn stored_hash_shape(h: Seq<char>) -> bool {
    &&& h.len() == 97
    &&& argon2id_phc(h, h.subrange(31, 53))
    &&& b64_of_16_bytes(h.subrange(31, 53))
}

/// A character that can occur in a stored password hash.
pub open spec fn phc_char(c: char) -> bool {
    b64_char(c) || c == '$' || c == '=' || c == ','
}

/// The most characters a password may have for argon2: it takes passwords
/// of at most `0xFFFF_FFFF` bytes, and a character takes at most four bytes.
pub open spec fn argon2_password_fits(p: Seq<char>) -> bool {
    p.len() <= 0x3FFF_FFFF
}

/// password-hash's `SaltString::generate` with the operating system's random
/// source, given as its text. Stated: the salt is sixteen random bytes in
/// unpadded Base64 (`Salt::RECOMMENDED_LENGTH` bytes, `Encoding::B64`);
/// which bytes is not stated: they are random.
#[verifier::external_body]
fn fresh_salt() -> (r: String)
    ensures
        b64_of_16_bytes(r@),
{
    SaltString::generate(&mut OsRng).as_str().to_string()
}

/// argon2's `PasswordHasher::hash_password` with default parameters and the
/// salt given by its Base64 text (read with `Salt::from_b64`), written as a
/// PHC string. Stated: a hash it produces is accepted for the same password
/// (what `verify_password` in the same crate checks); it is written as
/// `PasswordHash`'s `Display` writes it, with the default algorithm, version
/// and parameters, the salt as given and a 32-byte output (which bytes is
/// not stated); and it succeeds for a
/// salt of sixteen bytes and a password within argon2's length limit (its
/// only refusals then, in `verify_inputs`, cannot occur).
#[verifier::external_body]
fn argon2_hash(password: &str, salt: &str) -> (r: Result<String, argon2::password_hash::Error>)
    ensures
        r matches Ok(h) ==> argon2_accepts(password@, h@),
        r matches Ok(h) ==> argon2id_phc(h@, salt@),
        b64_of_16_bytes(salt@) && argon2_password_fits(password@) ==> r is Ok,
{
    match Salt::from_b64(salt) {
        Ok(salt) => match Argon2::default().hash_password(password.as_bytes(), salt) {
            Ok(hash) => Ok(hash.to_string()),
            Err(e) => Err(e),
        },
        Err(e) => Err(e),
    }
}

/// password-hash's `PasswordHash::new` on `encoded`, then argon2's
/// `PasswordVerifier::verify_password` with default parameters. Stated: it
/// succeeds exactly when `argon2_accepts` holds.
#[verifier::external_body]
fn argon2_check(password: &str, encoded: &str) -> (r: Result<(), argon2::password_hash::Error>)
    ensures
        r is Ok <==> argon2_accepts(password@, encoded@),
{
    match PasswordHash::new(encoded) {
        Ok(hash) => Argon2::default().verify_password(password.as_bytes(), &hash),
        Err(e) => Err(e),
    }
}

/// A character with the Unicode `White_Space` property (what std's
/// `char::is_whitespace` tests).
pub open spec fn white_space(c: char) -> bool {
    let u = c as u32;
    (0x9 <= u <= 0xD) || u == 0x20 || u == 0x85 || u == 0xA0 || u == 0x1680 || (0x2000 <= u
        <= 0x200A) || u == 0x2028 || u == 0x2029 || u == 0x202F || u == 0x205F || u == 0x3000
}

/// `s` without its leading white space.
pub open spec fn trim_start(s: Seq<char>) -> Seq<char>
    decreases s.len(),
{
    if s.len() > 0 && white_space(s[0]) {
        trim_start(s.drop_first())
    } else {
        s
    }
}

/// `s` without its trailing white space.
pub open spec fn trim_end(s: Seq<char>) -> Seq<char>
    decreases s.len(),
{
    if s.len() > 0 && white_space(s.last()) {
        trim_end(s.drop_last())
    } else {
        s
    }
}

/// `s` without leading and trailing white space.
pub open spec fn trimmed(s: Seq<char>) -> Seq<char> {
    trim_end(trim_start(s))
}

/// Whether `c` has the Unicode `White_Space` property.
fn is_white_space(c: char) -> (r: bool)
    ensures
        r == white_space(c),
{
    let u = c as u32;
    (0x9 <= u && u <= 0xD) || u == 0x20 || u == 0x85 || u == 0xA0 || u == 0x1680 || (0x2000 <= u
        && u <= 0x200A) || u == 0x2028 || u == 0x2029 || u == 0x202F || u == 0x205F || u == 0x3000
}

/// The text without leading and trailing white space (what std's `str::trim`
/// gives).
pub fn trim(s: &str) -> (r: String)
    ensures
        r@ == trimmed(s@),
{
    let c = chars_of(s);
    let n = c.len();
    let mut a: usize = 0;
    assert(c@ =~= c@.subrange(0, n as int));
    while a < n && is_white_space(c[a])
        invariant
            n == c@.len(),
            a <= n,
            trim_start(c@) == trim_start(c@.subrange(a as int, n as int)),
        decreases n - a,
    {
        assert(c@.subrange(a as int, n as int).drop_first() =~= c@.subrange(a + 1, n as int));
        a = a + 1;
    }
    assert(trim_start(c@) == c@.subrange(a as int, n as int));
    let mut b: usize = n;
    while b > a && is_white_space(c[b - 1])
        invariant
            n == c@.len(),
            a <= b <= n,
            trimmed(s@) == trim_end(c@.subrange(a as int, b as int)),
        decreases b - a,
    {
        assert(c@.subrange(a as int, b as int).drop_last() =~= c@.subrange(a as int, b - 1));
        b = b - 1;
    }
    let mut out: Vec<char> = Vec::new();
    let mut i: usize = a;
    while i < b
        invariant
            n == c@.len(),
            a <= i <= b <= n,
            out@ == c@.subrange(a as int, i as int),
        decreases b - i,
    {
        out.push(c[i]);
        i = i + 1;
        assert(out@ =~= c@.subrange(a as int, i as int));
    }
    string_of(out.as_slice())
}

/// ASCII upper-case letters lowered; every other character kept.
pub open spec fn ascii_lower(c: char) -> char {
    if 'A' <= c && c <= 'Z' {
        ((c as u32) + 32) as char
    } else {
        c
    }
}

/// The ASCII lower-case form of a text.
pub open spec fn ascii_lowercase(s: Seq<char>) -> Seq<char> {
    s.map_values(|c: char| ascii_lower(c))
}

/// The key an account is stored under: the username in ASCII lower case.
pub fn account_key(username: &str) -> (key: String)
    ensures
        key@ == ascii_lowercase(username@),
{
    let chars = chars_of(username);
    let mut out: Vec<char> = Vec::new();
    let mut i: usize = 0;
    while i < chars.len()
        invariant
            i <= chars@.len(),
            out@ == ascii_lowercase(chars@.subrange(0, i as int)),
        decreases chars@.len() - i,
    {
        let c = chars[i];
        let lower = if 'A' <= c && c <= 'Z' {
            ((c as u8) + 32) as char
        } else {
            c
        };
        assert(lower == ascii_lower(c));
        out.push(lower);
        i = i + 1;
        assert(out@ =~= ascii_lowercase(chars@.subrange(0, i as int)));
    }
    assert(chars@.subrange(0, i as int) =~= chars@);
    string_of(out.as_slice())
}

/// A username character: an ASCII letter or digit, `_` or `-`.
pub open spec fn username_char(c: char) -> bool {
    ('a' <= c && c <= 'z') || ('A' <= c && c <= 'Z') || ('0' <= c && c <= '9') || c == '_' || c
        == '-'
}

/// A valid username: 3 to 32 username characters (each one byte, so bytes
/// and characters count alike).
pub open spec fn username_ok(u: Seq<char>) -> bool {
    3 <= u.len() <= 32 && forall|i: int| 0 <= i < u.len() ==> username_char(#[trigger] u[i])
}

/// A valid password: 8 to 128 characters.
pub open spec fn password_ok(p: Seq<char>) -> bool {
    8 <= p.len() <= 128
}

/// The username rule, as the account screen states it.
pub open spec fn username_message() -> Seq<char> {
    "Username must be 3–32 letters, numbers, hyphens, or underscores"@
}

/// The password rule, as the account screen states it.
pub open spec fn password_message() -> Seq<char> {
    "Password must be 8–128 characters"@
}

/// Checks the username and password rules; the username rule first.
pub fn validate_credentials(username: &str, password: &str) -> (r: Result<(), String>)
    ensures
        r is Ok <==> username_ok(username@) && password_ok(password@),
        r matches Err(e) ==> e@ == (if !username_ok(username@) {
            username_message()
        } else {
            password_message()
        }),
{
    let u = chars_of(username);
    let mut ok = 3 <= u.len() && u.len() <= 32;
    let mut i: usize = 0;
    while i < u.len()
        invariant
            i <= u@.len(),
            ok == (3 <= u@.len() <= 32 && forall|j: int| 0 <= j < i ==> username_char(#[trigger] u@[j])),
        decreases u@.len() - i,
    {
        let c = u[i];
        let allowed = ('a' <= c && c <= 'z') || ('A' <= c && c <= 'Z') || ('0' <= c && c <= '9')
            || c == '_' || c == '-';
        if !allowed {
            ok = false;
        }
        i = i + 1;
        proof {
            if ok {
                assert forall|j: int| 0 <= j < i implies username_char(#[trigger] u@[j]) by {}
            }
        }
    }
    if !ok {
        return Err(String::from_str("Username must be 3–32 letters, numbers, hyphens, or underscores"));
    }
    let n = password.unicode_len();
    if !(8 <= n && n <= 128) {
        return Err(String::from_str("Password must be 8–128 characters"));
    }
    Ok(())
}

/// The refusal when a password cannot be hashed.
pub open spec fn hash_failure_message() -> Seq<char> {
    "Could not secure the password"@
}

/// Hashes a password with Argon2 and a fresh random salt, as a PHC string.
pub fn hash_password(password: &str) -> (r: Result<String, String>)
    ensures
        r matches Ok(h) ==> argon2_accepts(password@, h@),
        r matches Ok(h) ==> stored_hash_shape(h@),
        r matches Err(e) ==> e@ == hash_failure_message(),
        argon2_password_fits(password@) ==> r is Ok,
{
    let salt = fresh_salt();
    match argon2_hash(password, salt.as_str()) {
        Ok(h) => {
            proof {
                reveal_strlit("$argon2id$v=19$m=19456,t=2,p=1$");
                assert(h@.subrange(31, 53) =~= salt@);
            }
            Ok(h)
        },
        Err(_) => Err(String::from_str("Could not secure the password")),
    }
}

/// Whether `password` matches the PHC string `encoded`.
pub fn verify_password(password: &str, encoded: &str) -> (r: bool)
    ensures
        r == argon2_accepts(password@, encoded@),
{
    match argon2_check(password, encoded) {
        Ok(()) => true,
        Err(_) => false,
    }
}


/// Law: a stored hash never holds the password in plain text when the
/// password has a character that a hash cannot hold (such as a space).
pub proof fn lemma_hash_hides_password(password: Seq<char>, h: Seq<char>, i: int)
    requires
        stored_hash_shape(h),
        0 <= i < password.len(),
        !phc_char(password[i]),
    ensures
        forall|start: int|
            0 <= start <= h.len() - password.len() ==> #[trigger] h.subrange(start, start + password.len())
                != password,
{
    reveal_strlit("$argon2id$v=19$m=19456,t=2,p=1$");
    let p = argon2id_prefix();
    assert forall|k: int| 0 <= k < h.len() implies phc_char(#[trigger] h[k]) by {
        if k < 31 {
            assert(h[k] == h.subrange(0, 31)[k]);
            assert(phc_char(p[k]));
        } else if k < 53 {
            assert(h[k] == h.subrange(31, 53)[k - 31]);
        }
    }
    assert forall|start: int| 0 <= start <= h.len() - password.len() implies #[trigger] h.subrange(
        start,
        start + password.len(),
    ) != password by {
        if h.subrange(start, start + password.len()) == password {
            assert(password[i] == h[start + i]);
        }
    }
}

/// Law: account keys ignore ASCII case: the key of a key is the key itself,
/// so usernames that differ only in ASCII case share one key.
pub proof fn lemma_account_key_idempotent(s: Seq<char>)
    ensures
        ascii_lowercase(ascii_lowercase(s)) == ascii_lowercase(s),
{
    assert forall|i: int| 0 <= i < s.len() implies ascii_lower(ascii_lower(s[i])) == ascii_lower(
        s[i],
    ) by {
        let c = s[i];
        if 'A' <= c && c <= 'Z' {
            assert(!('A' <= ascii_lower(c) && ascii_lower(c) <= 'Z'));
        }
    }
    assert(ascii_lowercase(ascii_lowercase(s)) =~= ascii_lowercase(s));
}

} // verus!
