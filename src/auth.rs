//! HTTP basic authentication: an `Authorization` header checked against
//! configured credentials.
use vstd::prelude::*;
use vstd::utf8::{decode_utf8, valid_utf8};
use crate::facet::is_space_spec;

verus! {

/// A request that did not authenticate.
#[derive(Clone, Debug)]
pub struct AuthenticationFailed;

/// The credentials that requests must present.
#[derive(Clone, Debug)]
pub struct BasicAuthConfig {
    pub username: String,
    pub password: String,
}

impl BasicAuthConfig {
    pub fn new(username: String, password: String) -> (r: Self)
        ensures
            r.username@ == username@,
            r.password@ == password@,
    {
        Self { username, password }
    }
}

/// A character of the base64 alphabet, or `-`.
pub open spec fn is_encoded_char(c: char) -> bool {
    ('A' <= c <= 'Z') || ('a' <= c <= 'z') || ('0' <= c <= '9') || c == '+' || c == '/' || c == '-'
}

/// Encoded characters followed by at most three `=`.
pub open spec fn is_encoded_credentials(c: Seq<char>) -> bool {
    &&& forall|i: int|
        0 <= i < c.len() ==> is_encoded_char(#[trigger] c[i]) || (c[i] == '=' && c.len() - i <= 3)
    &&& forall|i: int, j: int| 0 <= i < j < c.len() && #[trigger] c[i] == '=' ==> #[trigger] c[j] == '='
}

/// The credentials of a header `Basic <credentials>`: `Basic`, one white
/// space character, then encoded credentials to the end.
pub open spec fn header_credentials(h: Seq<char>) -> Option<Seq<char>> {
    if h.len() >= 6 && h.take(5) == seq!['B', 'a', 's', 'i', 'c'] && is_space_spec(h[5])
        && is_encoded_credentials(h.skip(6)) {
        Some(h.skip(6))
    } else {
        None
    }
}

/// What base64 decoding (standard alphabet, padded) makes of a string, if it is valid.
pub uninterp spec fn base64_decoded(s: Seq<char>) -> Option<Seq<u8>>;

/// The user name and password of `user:password`, both made of word characters.
pub uninterp spec fn credential_pair(s: Seq<char>) -> Option<(Seq<char>, Seq<char>)>;

/// Relies on `regex::Regex::captures` with `^Basic\s(?P<encoded_credentials>[-A-Za-z0-9+/]*={0,3})$`:
/// the pattern is valid, so `Regex::new` succeeds, and the group is what follows `Basic` and one
/// white space character when the whole header matches.
#[verifier::external_body]
fn capture_header_credentials(header: &str) -> (r: Option<String>)
    ensures
        r matches Some(c) ==> header_credentials(header@) == Some(c@),
        r is None ==> header_credentials(header@) is None,
{
    let re = regex::Regex::new(r"^Basic\s(?P<encoded_credentials>[-A-Za-z0-9+/]*={0,3})$").unwrap();
    let caps = re.captures(header)?;
    Some(caps.name("encoded_credentials")?.as_str().to_string())
}

/// Relies on `base64::decode` (standard configuration): the decoded bytes, or `None` where the
/// input is not valid base64.
#[verifier::external_body]
fn decode_base64(encoded: &str) -> (r: Option<Vec<u8>>)
    ensures
        r matches Some(b) ==> base64_decoded(encoded@) == Some(b@),
        r is None ==> base64_decoded(encoded@) is None,
{
    base64::decode(encoded).ok()
}

/// Relies on `std::str::from_utf8`: the text where the bytes are valid UTF-8.
#[verifier::external_body]
fn utf8_text(bytes: &[u8]) -> (r: Option<String>)
    ensures
        r matches Some(t) ==> valid_utf8(bytes@) && t@ == decode_utf8(bytes@),
        r is None ==> !valid_utf8(bytes@),
{
    match std::str::from_utf8(bytes) {
        Ok(text) => Some(text.to_string()),
        Err(_) => None,
    }
}

/// Relies on `regex::Regex::captures` with `^(?P<username>\w+):(?P<password>\w+)$`: the pattern
/// is valid, so `Regex::new` succeeds; the two groups are the whole text but the colon between
/// them, and neither is empty.
#[verifier::external_body]
fn capture_credential_pair(text: &str) -> (r: Option<(String, String)>)
    ensures
        r matches Some(p) ==> credential_pair(text@) == Some((p.0@, p.1@)),
        r is None ==> credential_pair(text@) is None,
        r matches Some(p) ==> text@ == p.0@ + seq![':'] + p.1@ && p.0@.len() > 0 && p.1@.len() > 0,
{
    let re = regex::Regex::new(r"^(?P<username>\w+):(?P<password>\w+)$").unwrap();
    let caps = re.captures(text)?;
    Some((caps.name("username")?.as_str().to_string(), caps.name("password")?.as_str().to_string()))
}

/// The user name and password that encoded credentials hold.
pub open spec fn decoded_credentials(encoded: Seq<char>) -> Option<(Seq<char>, Seq<char>)> {
    match base64_decoded(encoded) {
        Some(bytes) => if valid_utf8(bytes) {
            credential_pair(decode_utf8(bytes))
        } else {
            None
        },
        None => None,
    }
}

/// Whether a header authenticates against the configured credentials.
pub open spec fn header_authenticates(header: Seq<char>, config: BasicAuthConfig) -> bool {
    match header_credentials(header) {
        Some(encoded) => match decoded_credentials(encoded) {
            Some((username, password)) => username == config.username@ && password
                == config.password@,
            None => false,
        },
        None => false,
    }
}

/// Whether the user name and password are the configured ones.
pub fn auth_is_correct(username: String, password: String, config: &BasicAuthConfig) -> (r: bool)
    ensures
        r == (username@ == config.username@ && password@ == config.password@),
{
    username == config.username && password == config.password
}

/// The encoded credentials of a `Basic` authorization header.
pub fn extract_auth_from_header(auth_header: String) -> (r: Option<String>)
    ensures
        r matches Some(c) ==> header_credentials(auth_header@) == Some(c@),
        r is None ==> header_credentials(auth_header@) is None,
{
    capture_header_credentials(auth_header.as_str())
}

/// The user name and password that base64-encoded `user:password` holds.
pub fn extract_credentials_from_base64_string(encoded_credentials: String) -> (r: Option<(String, String)>)
    ensures
        r matches Some(p) ==> decoded_credentials(encoded_credentials@) == Some((p.0@, p.1@)),
        r is None ==> decoded_credentials(encoded_credentials@) is None,
{
    match decode_base64(encoded_credentials.as_str()) {
        Some(bytes) => match utf8_text(bytes.as_slice()) {
            Some(text) => capture_credential_pair(text.as_str()),
            None => None,
        },
        None => None,
    }
}

/// Whether a `Basic` authorization header carries the configured credentials.
pub fn attempt_basic_auth(auth_header: String, config: &BasicAuthConfig) -> (r: bool)
    ensures
        r == header_authenticates(auth_header@, *config),
{
    match extract_auth_from_header(auth_header) {
        Some(encoded) => match extract_credentials_from_base64_string(encoded) {
            Some((username, password)) => auth_is_correct(username, password, config),
            None => false,
        },
        None => false,
    }
}

} // verus!
