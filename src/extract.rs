use vstd::prelude::*;

use crate::brackets::{
    all_bracket_types, closer_of, first_unbalanced, find_first_unbalanced, offset_as_int,
    opener_of, stray_closer, unclosed_opener, BracketType,
};
use crate::protocol::{first_protocol, is_first_protocol, ProtocolMatcher};
use crate::validate::{is_valid_url, url_accepted};

verus! {

/// The earlier of two optional offsets; an absent one never wins.
pub open spec fn earlier(a: Option<int>, b: Option<int>) -> Option<int> {
    match (a, b) {
        (Some(x), Some(y)) => Some(if x <= y { x } else { y }),
        (Some(x), None) => Some(x),
        (None, _) => b,
    }
}

/// The earliest position at which any of the bracket types `ts` breaks its
/// balance in `s`.
pub open spec fn earliest_among(s: Seq<char>, ts: Seq<BracketType>) -> Option<int>
    decreases ts.len(),
{
    if ts.len() == 0 {
        None
    } else {
        earlier(earliest_among(s, ts.drop_last()), first_unbalanced(s, ts.last()))
    }
}

/// Where a URL that begins at the start of `s` ends (exclusive): at the first
/// bracket of any type that breaks its balance, or at the end of `s`.
pub open spec fn url_boundary(s: Seq<char>) -> int {
    match earliest_among(s, all_bracket_types()) {
        Some(b) => b,
        None => s.len() as int,
    }
}

/// The span (first and last character, both inclusive) of the URL found in
/// `s`: it starts at the first protocol literal, ends before the boundary,
/// and must be accepted as a URL.
pub open spec fn extraction(s: Seq<char>) -> Option<(int, int)> {
    match first_protocol(s) {
        None => None,
        Some(k) => {
            let b = url_boundary(s.subrange(k, s.len() as int));
            if url_accepted(s.subrange(k, k + b)) {
                Some((k, k + b - 1))
            } else {
                None
            }
        },
    }
}

/// An optional span seen as an optional pair of integers.
pub open spec fn span_as_int(r: Option<(usize, usize)>) -> Option<(int, int)> {
    match r {
        Some((a, b)) => Some((a as int, b as int)),
        None => None,
    }
}

/// The character `c` opens or closes some bracket type.
pub open spec fn is_bracket_char(c: char) -> bool {
    c == '(' || c == ')' || c == '[' || c == ']' || c == '{' || c == '}' || c == '<' || c == '>'
}

/// A position where a bracket type breaks its balance lies inside `s` and
/// holds a bracket character.
pub proof fn lemma_first_unbalanced_at_bracket(s: Seq<char>, t: BracketType)
    ensures
        first_unbalanced(s, t) matches Some(i) ==> 0 <= i < s.len() && is_bracket_char(s[i]),
{
    if exists|i: int| stray_closer(s, t, i) {
        let i = choose|i: int| stray_closer(s, t, i);
    } else if exists|i: int| unclosed_opener(s, t, i) {
        let i = choose|i: int| unclosed_opener(s, t, i);
    }
}

/// The earliest break among several bracket types also lies inside `s` and
/// holds a bracket character.
pub proof fn lemma_earliest_at_bracket(s: Seq<char>, ts: Seq<BracketType>)
    ensures
        earliest_among(s, ts) matches Some(i) ==> 0 <= i < s.len() && is_bracket_char(s[i]),
    decreases ts.len(),
{
    if ts.len() > 0 {
        lemma_earliest_at_bracket(s, ts.drop_last());
        lemma_first_unbalanced_at_bracket(s, ts.last());
    }
}

/// The boundary lies within `s`, and where it is not the end of `s` it holds
/// a bracket character.
pub proof fn lemma_boundary_at_bracket(s: Seq<char>)
    ensures
        0 <= url_boundary(s) <= s.len(),
        url_boundary(s) < s.len() ==> is_bracket_char(s[url_boundary(s)]),
{
    lemma_earliest_at_bracket(s, all_bracket_types());
}

/// Finds where a URL that begins at the start of `rest` ends: the earliest
/// offset, over all bracket types, at which brackets break their balance, or
/// the length of `rest` if none does.
pub fn resolve_boundary(rest: &str) -> (b: usize)
    ensures
        b == url_boundary(rest@),
{
    let types = BracketType::iter();
    let mut best: Option<usize> = None;
    let mut k: usize = 0;
    while k < types.len()
        invariant
            types@ == all_bracket_types(),
            k <= types.len(),
            offset_as_int(best) == earliest_among(rest@, types@.subrange(0, k as int)),
        decreases types.len() - k,
    {
        let found = find_first_unbalanced(rest, types[k]);
        proof {
            assert(types@.subrange(0, k + 1).drop_last() =~= types@.subrange(0, k as int));
        }
        best = match (best, found) {
            (Some(x), Some(y)) => Some(if x <= y { x } else { y }),
            (Some(x), None) => Some(x),
            (None, _) => found,
        };
        k = k + 1;
    }
    proof {
        assert(types@.subrange(0, types@.len() as int) =~= types@);
    }
    match best {
        Some(b) => b,
        None => rest.unicode_len(),
    }
}

/// Finds the first URL in `input`, which is assumed to hold no whitespace,
/// using a matcher built beforehand. The result is the offsets, in
/// characters, of the URL's first and last character.
pub fn extract_url_with(matcher: &ProtocolMatcher, input: &str) -> (r: Option<(usize, usize)>)
    ensures
        span_as_int(r) == extraction(input@),
        r matches Some((a, e)) ==> a <= e < input@.len(),
{
    if input.is_empty() {
        proof {
            assert forall|i: int| !is_first_protocol(input@, i) by {}
        }
        return None;
    }
    let start = match matcher.first_protocol_offset(input) {
        Some(start) => start,
        None => return None,
    };
    let n = input.unicode_len();
    let rest = input.substring_char(start, n);
    let boundary = resolve_boundary(rest);
    proof {
        lemma_boundary_at_bracket(rest@);
        let k = start as int;
        assert(is_first_protocol(input@, k));
        assert(rest@[0] == 'h');
    }
    let candidate = input.substring_char(start, start + boundary);
    if is_valid_url(candidate) {
        Some((start, start + boundary - 1))
    } else {
        None
    }
}

/// Finds the first URL in `input`, which is assumed to hold no whitespace.
/// The result is the offsets, in characters, of the URL's first and last
/// character; `None` where there is no protocol literal, or where the text
/// found does not parse as a URL with a non-empty host.
pub fn extract_url(input: &str) -> (r: Option<(usize, usize)>)
    ensures
        span_as_int(r) == extraction(input@),
        r matches Some((a, e)) ==> a <= e < input@.len(),
{
    let matcher = ProtocolMatcher::new();
    extract_url_with(&matcher, input)
}

} // verus!
