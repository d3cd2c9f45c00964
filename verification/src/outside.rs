//! The library's trusted boundary: each item below calls one function of an
//! outside crate (or of std, where vstd gives it no specification), and its
//! contract is what that function's documentation or source shows.
use vstd::prelude::*;
use vstd::string::StringSliceAdditionalSpecFns;

verus! {

// ---------------------------------------------------------------------------
// urlencoding
// ---------------------------------------------------------------------------

/// What `urlencoding::decode` returns for a string: `None` where the decoded
/// bytes are not UTF-8.
pub uninterp spec fn percent_decoded(s: Seq<char>) -> Option<Seq<char>>;

/// The text holds a `%`.
pub open spec fn has_percent(s: Seq<char>) -> bool {
    s.contains('%')
}

/// Calls `urlencoding::decode` and keeps the decoded text on success.
/// Trusted: the result is `percent_decoded` of the input, and (as the
/// source shows: the input is borrowed back unchanged when it holds no `%`)
/// a string without `%` decodes to itself.
#[verifier::external_body]
pub(crate) fn percent_decode(s: &str) -> (r: Option<String>)
    ensures
        r is None <==> percent_decoded(s@) is None,
        r matches Some(d) ==> percent_decoded(s@) == Some(d@),
        r matches Some(d) ==> (!has_percent(s@) ==> d@ == s@),
        !has_percent(s@) ==> r is Some,
{
    match urlencoding::decode(s) {
        Ok(d) => Some(d.into_owned()),
        Err(_) => None,
    }
}

// ---------------------------------------------------------------------------
// http header names and values (through reqwest::header)
// ---------------------------------------------------------------------------

/// A byte of an HTTP token, which `HeaderName::from_bytes` accepts.
pub open spec fn is_token_byte(b: u8) -> bool {
    ('a' as u8 <= b && b <= 'z' as u8) || ('A' as u8 <= b && b <= 'Z' as u8)
        || ('0' as u8 <= b && b <= '9' as u8) || b == '!' as u8 || b == '#' as u8
        || b == '$' as u8 || b == '%' as u8 || b == '&' as u8 || b == '\'' as u8
        || b == '*' as u8 || b == '+' as u8 || b == '-' as u8 || b == '.' as u8
        || b == '^' as u8 || b == '_' as u8 || b == '`' as u8 || b == '|' as u8
        || b == '~' as u8
}

/// The bytes that `HeaderName::from_bytes` accepts: 1 to 65535 token bytes.
pub open spec fn valid_header_name(bytes: Seq<u8>) -> bool {
    1 <= bytes.len() <= 65535 && forall|i: int| 0 <= i < bytes.len() ==> is_token_byte(#[trigger] bytes[i])
}

/// A byte that `HeaderValue::from_str` accepts: a tab, or 32 and above but 127.
pub open spec fn is_header_value_byte(b: u8) -> bool {
    (b >= 32 && b != 127) || b == 9
}

pub open spec fn valid_header_value(bytes: Seq<u8>) -> bool {
    forall|i: int| 0 <= i < bytes.len() ==> is_header_value_byte(#[trigger] bytes[i])
}

/// Whether `reqwest::header::HeaderName::from_bytes` accepts the UTF-8 bytes
/// of `name`. Trusted: it does exactly for 1 to 65535 token bytes (the
/// `HEADER_CHARS` table and the length bounds of `parse_hdr` in `http`).
#[verifier::external_body]
pub(crate) fn header_name_accepted(name: &str) -> (r: bool)
    ensures
        r == valid_header_name(name.spec_bytes()),
{
    reqwest::header::HeaderName::from_bytes(name.as_bytes()).is_ok()
}

/// Whether `reqwest::header::HeaderValue::from_str` accepts `value`.
/// Trusted: it does exactly when every byte is a tab or in 32..=255 but 127
/// (`is_valid` in `http`'s `header/value.rs`).
#[verifier::external_body]
pub(crate) fn header_value_accepted(value: &str) -> (r: bool)
    ensures
        r == valid_header_value(value.spec_bytes()),
{
    reqwest::header::HeaderValue::from_str(value).is_ok()
}

// ---------------------------------------------------------------------------
// url
// ---------------------------------------------------------------------------

/// What `url::Url::parse` gives: the serialization of the parsed URL, or the
/// text of the parse error.
pub uninterp spec fn url_parsed(s: Seq<char>) -> Result<Seq<char>, Seq<char>>;

/// Calls `url::Url::parse` and serializes the result (or the error) as text.
/// Trusted: the result is `url_parsed` of the input.
#[verifier::external_body]
pub(crate) fn url_parse(s: &str) -> (r: Result<String, String>)
    ensures
        r matches Ok(u) ==> url_parsed(s@) matches Ok(v) && v == u@,
        r matches Err(e) ==> url_parsed(s@) matches Err(v) && v == e@,
{
    match url::Url::parse(s) {
        Ok(u) => Ok(u.to_string()),
        Err(e) => Err(e.to_string()),
    }
}

/// What `url::Url::join` gives for the URL that `base` parses to and `input`:
/// the joined URL's serialization, or `None` where `base` does not parse or
/// the join fails.
pub uninterp spec fn url_joined(base: Seq<char>, input: Seq<char>) -> Option<Seq<char>>;

/// Parses `base` with `url::Url::parse` and resolves `input` against it with
/// `url::Url::join`. Trusted: the result is `url_joined` of the two texts.
#[verifier::external_body]
pub(crate) fn url_join(base: &str, input: &str) -> (r: Option<String>)
    ensures
        r is None <==> url_joined(base@, input@) is None,
        r matches Some(u) ==> url_joined(base@, input@) == Some(u@),
{
    match url::Url::parse(base) {
        Ok(b) => b.join(input).ok().map(|u| u.to_string()),
        Err(_) => None,
    }
}

/// What `url::Url::path` gives for the URL that `s` parses to (`None` where
/// `s` does not parse).
pub uninterp spec fn url_path_of(s: Seq<char>) -> Option<Seq<char>>;

/// Parses `s` with `url::Url::parse` and returns `Url::path`. Trusted: the
/// result is `url_path_of` of the input.
#[verifier::external_body]
pub(crate) fn url_path(s: &str) -> (r: Option<String>)
    ensures
        r is None <==> url_path_of(s@) is None,
        r matches Some(p) ==> url_path_of(s@) == Some(p@),
{
    match url::Url::parse(s) {
        Ok(u) => Some(u.path().to_string()),
        Err(_) => None,
    }
}

// ---------------------------------------------------------------------------
// std::path (the target platform's path rules)
// ---------------------------------------------------------------------------

/// What `Path::file_name` gives for the path `s`.
pub uninterp spec fn path_file_name_of(s: Seq<char>) -> Option<Seq<char>>;

/// Calls `std::path::Path::file_name`. Trusted: the result is
/// `path_file_name_of` of the input (a name taken from a `&str` is UTF-8).
#[verifier::external_body]
pub(crate) fn path_file_name(s: &str) -> (r: Option<String>)
    ensures
        r is None <==> path_file_name_of(s@) is None,
        r matches Some(n) ==> path_file_name_of(s@) == Some(n@),
{
    std::path::Path::new(s).file_name().and_then(|n| n.to_str()).map(|n| n.to_string())
}

/// What `Path::parent` gives for the path `s`.
pub uninterp spec fn path_parent_of(s: Seq<char>) -> Option<Seq<char>>;

/// Calls `std::path::Path::parent`. Trusted: the result is `path_parent_of`
/// of the input.
#[verifier::external_body]
pub(crate) fn path_parent(s: &str) -> (r: Option<String>)
    ensures
        r is None <==> path_parent_of(s@) is None,
        r matches Some(p) ==> path_parent_of(s@) == Some(p@),
{
    std::path::Path::new(s).parent().map(|p| p.to_string_lossy().into_owned())
}

/// What `Path::join` gives for the two paths.
pub uninterp spec fn path_joined(base: Seq<char>, child: Seq<char>) -> Seq<char>;

/// Calls `std::path::Path::join`. Trusted: the result is `path_joined` of the
/// two inputs (UTF-8 in, UTF-8 out).
#[verifier::external_body]
pub(crate) fn path_join(base: &str, child: &str) -> (r: String)
    ensures
        r@ == path_joined(base@, child@),
{
    std::path::Path::new(base).join(child).to_string_lossy().into_owned()
}

/// What `Path::is_relative` says of the path `s`.
pub uninterp spec fn path_is_relative(s: Seq<char>) -> bool;

/// Calls `std::path::Path::is_relative`. Trusted: the result is
/// `path_is_relative` of the input.
#[verifier::external_body]
pub(crate) fn path_relative(s: &str) -> (r: bool)
    ensures
        r == path_is_relative(s@),
{
    std::path::Path::new(s).is_relative()
}

} // verus!
