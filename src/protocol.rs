use vstd::prelude::*;

use crate::brackets::offset_as_int;

verus! {

#[verifier::external_type_specification]
#[verifier::external_body]
pub struct ExRegex(regex::Regex);

/// The characters of `http://`.
pub open spec fn http_literal() -> Seq<char> {
    seq!['h', 't', 't', 'p', ':', '/', '/']
}

/// The characters of `https://`.
pub open spec fn https_literal() -> Seq<char> {
    seq!['h', 't', 't', 'p', 's', ':', '/', '/']
}

/// `lit` occurs in `s` starting at position `i`.
pub open spec fn occurs_at(s: Seq<char>, i: int, lit: Seq<char>) -> bool {
    0 <= i && i + lit.len() <= s.len() && s.subrange(i, i + lit.len()) == lit
}

/// A protocol literal (`http://` or `https://`) starts at position `i` of `s`.
pub open spec fn protocol_at(s: Seq<char>, i: int) -> bool {
    occurs_at(s, i, http_literal()) || occurs_at(s, i, https_literal())
}

/// Position `i` is where the first protocol literal of `s` starts.
pub open spec fn is_first_protocol(s: Seq<char>, i: int) -> bool {
    protocol_at(s, i) && forall|j: int| 0 <= j < i ==> !protocol_at(s, j)
}

/// Where the first protocol literal of `s` starts, if any does.
pub open spec fn first_protocol(s: Seq<char>) -> Option<int> {
    if exists|i: int| is_first_protocol(s, i) {
        Some(choose|i: int| is_first_protocol(s, i))
    } else {
        None
    }
}

/// At most one position is the first protocol literal.
pub proof fn lemma_first_protocol_unique(s: Seq<char>, i: int, j: int)
    requires
        is_first_protocol(s, i),
        is_first_protocol(s, j),
    ensures
        i == j,
{
}

/// The regular expression that finds a protocol literal.
pub const PROTOCOL_PATTERN: &'static str = "(http|https)://";

/// A compiled matcher for the protocol literals `http://` and `https://`,
/// built once and shared by reference.
pub struct ProtocolMatcher {
    regex: regex::Regex,
}

/// Relies on regex::Regex::new: the protocol pattern is a valid regular
/// expression well within the size limits, so compiling it succeeds and the
/// unwrap never panics.
#[verifier::external_body]
fn compile_protocol_pattern() -> regex::Regex {
    regex::Regex::new(PROTOCOL_PATTERN).unwrap()
}

impl ProtocolMatcher {
    /// Compiles the protocol pattern.
    pub fn new() -> ProtocolMatcher {
        ProtocolMatcher { regex: compile_protocol_pattern() }
    }

    /// Relies on regex::Regex::find, which reports the leftmost match, and on
    /// regex::Match::start, its byte offset, which lies on a character
    /// boundary. A matcher is only ever compiled from the protocol pattern, so
    /// that match starts where the first `http://` or `https://` of
    /// `haystack` starts. The result is the rest of `haystack` from there.
    #[verifier::external_body]
    fn find_protocol<'a>(&self, haystack: &'a str) -> (r: Option<&'a str>)
        ensures
            r is None ==> forall|i: int| !protocol_at(haystack@, i),
            r is Some ==> exists|k: int|
                is_first_protocol(haystack@, k) && r->0@ == haystack@.subrange(
                    k,
                    haystack@.len() as int,
                ),
    {
        match self.regex.find(haystack) {
            Some(m) => Some(&haystack[m.start()..]),
            None => None,
        }
    }

    /// The offset, in characters, at which the first protocol literal of
    /// `input` starts.
    pub fn first_protocol_offset(&self, input: &str) -> (r: Option<usize>)
        ensures
            offset_as_int(r) == first_protocol(input@),
    {
        match self.find_protocol(input) {
            None => {
                proof {
                    assert forall|i: int| !is_first_protocol(input@, i) by {}
                }
                None
            },
            Some(rest) => {
                let n = input.unicode_len();
                let m = rest.unicode_len();
                proof {
                    let k = choose|k: int|
                        is_first_protocol(input@, k) && rest@ == input@.subrange(
                            k,
                            input@.len() as int,
                        );
                    let c = choose|c: int| is_first_protocol(input@, c);
                    lemma_first_protocol_unique(input@, k, c);
                }
                Some(n - m)
            },
        }
    }
}

} // verus!
