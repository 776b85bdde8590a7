use vstd::prelude::*;

verus! {

#[verifier::external_type_specification]
#[verifier::external_body]
pub struct ExParseError(url::ParseError);

/// Whether `url::Url::parse` accepts the text `s`.
pub uninterp spec fn url_parses(s: Seq<char>) -> bool;

/// The host that `url::Url::host_str` gives for the URL parsed from `s`.
pub uninterp spec fn url_host(s: Seq<char>) -> Option<Seq<char>>;

/// An optional host seen as optional text.
pub open spec fn host_view(h: Option<String>) -> Option<Seq<char>> {
    match h {
        Some(s) => Some(s@),
        None => None,
    }
}

/// A host is acceptable when it is present and not empty.
pub open spec fn host_acceptable(h: Option<Seq<char>>) -> bool {
    h is Some && h->0.len() > 0
}

/// The outcome of parsing is acceptable: it parsed, with an acceptable host.
pub open spec fn parse_acceptable(p: Result<Option<String>, url::ParseError>) -> bool {
    p is Ok && host_acceptable(host_view(p->Ok_0))
}

/// The text `s` is accepted as a URL.
pub open spec fn url_accepted(s: Seq<char>) -> bool {
    url_parses(s) && host_acceptable(url_host(s))
}

/// Relies on url::Url::parse, which accepts or refuses `candidate`, and on
/// url::Url::host_str, the host of the parsed URL if it has one. Both depend
/// on the text alone.
#[verifier::external_body]
fn parse_host(candidate: &str) -> (r: Result<Option<String>, url::ParseError>)
    ensures
        r is Ok <==> url_parses(candidate@),
        r is Ok ==> host_view(r->Ok_0) == url_host(candidate@),
{
    match url::Url::parse(candidate) {
        Ok(u) => Ok(u.host_str().map(|h| h.to_string())),
        Err(e) => Err(e),
    }
}

/// Decides on the outcome of parsing a candidate: accepted when it parsed
/// and has a non-empty host.
pub fn accepts_parsed(parsed: &Result<Option<String>, url::ParseError>) -> (r: bool)
    ensures
        r == parse_acceptable(*parsed),
{
    match parsed {
        Ok(Some(host)) => !host.as_str().is_empty(),
        _ => false,
    }
}

/// Whether `candidate` parses as a URL with a non-empty host.
pub fn is_valid_url(candidate: &str) -> (r: bool)
    ensures
        r == url_accepted(candidate@),
{
    let parsed = parse_host(candidate);
    accepts_parsed(&parsed)
}

} // verus!
