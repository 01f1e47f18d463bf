//! Splitting a URI into its parts with the regular expression of RFC 3986,
//! appendix B.
use vstd::prelude::*;

verus! {

/// The regular expression of RFC 3986, appendix B: group 4 is the authority
/// (the host) and group 5 the path.
pub const URI_PATTERN: &'static str = "^(([^:/?#]+):)?(//([^/?#]*))?([^?#]*)(\\?([^#]*))?(#(.*))?";

/// What the `regex` crate finds for capture group `group` when it matches
/// `pattern` against `haystack`: `None` when the pattern does not compile or
/// does not match, `Some(None)` when the match leaves the group unset, and
/// `Some(Some(text))` for the text that the group matched.
pub uninterp spec fn regex_capture(pattern: Seq<char>, haystack: Seq<char>, group: nat) -> Option<
    Option<Seq<char>>,
>;

/// The characters of an optional capture.
pub open spec fn capture_view(r: Option<Option<&str>>) -> Option<Option<Seq<char>>> {
    match r {
        None => None,
        Some(None) => Some(None),
        Some(Some(t)) => Some(Some(t@)),
    }
}

/// `t` stands somewhere in `s`.
pub open spec fn is_substring(t: Seq<char>, s: Seq<char>) -> bool {
    exists|i: int| 0 <= i && i + t.len() <= s.len() && #[trigger] s.subrange(i, i + t.len()) == t
}

/// Compiles `pattern` with `regex::Regex::new`, matches it against
/// `haystack` with `Regex::captures`, and takes group `group` of the match with
/// `Captures::get` and `Match::as_str`. The contract names the outcome
/// `regex_capture` and adds what the crate documents of a match: its text is
/// a piece of the haystack.
#[verifier::external_body]
fn capture_group<'h>(pattern: &str, haystack: &'h str, group: usize) -> (r: Option<Option<&'h str>>)
    ensures
        capture_view(r) == regex_capture(pattern@, haystack@, group as nat),
        r matches Some(Some(t)) ==> is_substring(t@, haystack@),
{
    let re = match regex::Regex::new(pattern) {
        Ok(re) => re,
        Err(_) => return None,
    };
    let caps = match re.captures(haystack) {
        Some(c) => c,
        None => return None,
    };
    match caps.get(group) {
        Some(m) => Some(Some(m.as_str())),
        None => Some(None),
    }
}

/// Why a URI could not be split.
#[derive(Debug, Clone, Copy, PartialEq, Eq, Structural)]
pub enum UriError {
    /// The pattern did not match the URI (or did not compile).
    NoMatch,
    /// The URI has no host or no path.
    Malformed,
}

/// The host and the path of `uri`: what `parse_uri` returns for the captures
/// `host` (group 4) and `file` (group 5).
pub open spec fn uri_parts(host: Option<Option<Seq<char>>>, file: Option<Option<Seq<char>>>) -> Result<
    (Seq<char>, Seq<char>),
    UriError,
> {
    match (host, file) {
        (Some(Some(h)), Some(Some(f))) => Ok((h, f)),
        (None, _) => Err(UriError::NoMatch),
        (_, None) => Err(UriError::NoMatch),
        _ => Err(UriError::Malformed),
    }
}

/// The host and the path from the captures `host` (group 4) and `file`
/// (group 5) of a URI.
pub fn split_captures<'a>(host: Option<Option<&'a str>>, file: Option<Option<&'a str>>) -> (r: Result<(&'a str, &'a str), UriError>)
    ensures
        match r {
            Ok((h, f)) => uri_parts(capture_view(host), capture_view(file))
                == Ok::<(Seq<char>, Seq<char>), UriError>((h@, f@))
                && host == Some(Some(h)) && file == Some(Some(f)),
            Err(e) => uri_parts(capture_view(host), capture_view(file))
                == Err::<(Seq<char>, Seq<char>), UriError>(e),
        },
{
    match (host, file) {
        (Some(Some(h)), Some(Some(f))) => Ok((h, f)),
        (None, _) => Err(UriError::NoMatch),
        (_, None) => Err(UriError::NoMatch),
        _ => Err(UriError::Malformed),
    }
}

/// The host and the path of `uri`, as groups 4 and 5 of `URI_PATTERN` give
/// them. The URI must have both.
pub fn parse_uri(uri: &str) -> (r: (&str, &str))
    requires
        uri_parts(regex_capture(URI_PATTERN@, uri@, 4), regex_capture(URI_PATTERN@, uri@, 5)) is Ok,
    ensures
        uri_parts(regex_capture(URI_PATTERN@, uri@, 4), regex_capture(URI_PATTERN@, uri@, 5))
            == Ok::<(Seq<char>, Seq<char>), UriError>((r.0@, r.1@)),
        is_substring(r.0@, uri@) && is_substring(r.1@, uri@),
{
    let host = capture_group(URI_PATTERN, uri, 4);
    let file = capture_group(URI_PATTERN, uri, 5);
    match split_captures(host, file) {
        Ok(parts) => parts,
        Err(_) => ("", ""),
    }
}

/// The host and the path of `uri`, or why it does not have both: the URI is
/// split by `parse_uri` only where it has them.
pub fn checked_parse_uri(uri: &str) -> (r: Result<(&str, &str), UriError>)
    ensures
        match r {
            Ok((h, f)) => uri_parts(
                regex_capture(URI_PATTERN@, uri@, 4),
                regex_capture(URI_PATTERN@, uri@, 5),
            ) == Ok::<(Seq<char>, Seq<char>), UriError>((h@, f@)),
            Err(e) => uri_parts(
                regex_capture(URI_PATTERN@, uri@, 4),
                regex_capture(URI_PATTERN@, uri@, 5),
            ) == Err::<(Seq<char>, Seq<char>), UriError>(e),
        },
{
    let host = capture_group(URI_PATTERN, uri, 4);
    let file = capture_group(URI_PATTERN, uri, 5);
    match split_captures(host, file) {
        Ok(_) => Ok(parse_uri(uri)),
        Err(e) => Err(e),
    }
}

/// The path part (group 5) of an absolute URI: `Err` when the pattern does
/// not match, `Ok(None)` when the match has no path group.
pub fn from_absolute(abspath: &str) -> (r: Result<Option<&str>, UriError>)
    ensures
        match regex_capture(URI_PATTERN@, abspath@, 5) {
            None => r == Err::<Option<&str>, UriError>(UriError::NoMatch),
            Some(None) => r == Ok::<Option<&str>, UriError>(None),
            Some(Some(p)) => r matches Ok(Some(q)) && q@ == p,
        },
        r matches Ok(Some(q)) ==> is_substring(q@, abspath@),
{
    match capture_group(URI_PATTERN, abspath, 5) {
        None => Err(UriError::NoMatch),
        Some(None) => Ok(None),
        Some(Some(p)) => Ok(Some(p)),
    }
}

} // verus!
