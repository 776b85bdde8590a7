use vstd::prelude::*;

use crate::brackets::{
    all_bracket_types, closer_of, depth, first_unbalanced, lemma_balanced_when_none,
    lemma_depth_concat, lemma_depth_prefix, lemma_never_negative_without_stray,
    lemma_stray_closer_unique, never_negative, opener_of, stray_closer, unclosed_opener,
    BracketType,
};
use crate::extract::{earliest_among, extraction, lemma_boundary_at_bracket, url_boundary};
use crate::protocol::{
    first_protocol, http_literal, https_literal, is_first_protocol, lemma_first_protocol_unique,
    occurs_at, protocol_at,
};

verus! {

/// The bracket types `ts` find no break at all exactly when none of them does.
proof fn lemma_earliest_among_none(s: Seq<char>, ts: Seq<BracketType>)
    ensures
        earliest_among(s, ts) is None <==> forall|i: int|
            0 <= i < ts.len() ==> #[trigger] first_unbalanced(s, ts[i]) is None,
    decreases ts.len(),
{
    if ts.len() > 0 {
        let front = ts.drop_last();
        lemma_earliest_among_none(s, front);
        assert forall|i: int| 0 <= i < front.len() implies front[i] == ts[i] by {}
        assert(ts.last() == ts[ts.len() - 1]);
        if earliest_among(s, front) is Some {
            let j = choose|j: int|
                0 <= j < front.len() && !(#[trigger] first_unbalanced(s, front[j]) is None);
            assert(front[j] == ts[j]);
        }
    }
}

/// Where each of the bracket types `ts` either keeps its balance or breaks it
/// at `v`, a break found among them is at `v`.
proof fn lemma_earliest_among_single(s: Seq<char>, ts: Seq<BracketType>, v: int)
    requires
        forall|i: int|
            0 <= i < ts.len() ==> #[trigger] first_unbalanced(s, ts[i]) is None
                || first_unbalanced(s, ts[i]) == Some(v),
    ensures
        earliest_among(s, ts) is Some ==> earliest_among(s, ts) == Some(v),
    decreases ts.len(),
{
    if ts.len() > 0 {
        let front = ts.drop_last();
        assert forall|i: int| 0 <= i < front.len() implies #[trigger] first_unbalanced(
            s,
            front[i],
        ) is None || first_unbalanced(s, front[i]) == Some(v) by {
            assert(front[i] == ts[i]);
        }
        lemma_earliest_among_single(s, front, v);
        assert(ts.last() == ts[ts.len() - 1]);
    }
}

/// Text in which no bracket type breaks its balance has its boundary at its end.
proof fn lemma_boundary_at_end(c: Seq<char>)
    requires
        forall|t: BracketType| #[trigger] first_unbalanced(c, t) is None,
    ensures
        url_boundary(c) == c.len(),
{
    let ts = all_bracket_types();
    assert forall|i: int| 0 <= i < ts.len() implies #[trigger] first_unbalanced(c, ts[i]) is None by {}
    lemma_earliest_among_none(c, ts);
}

/// Text whose boundary is at its end has no bracket type that breaks its balance.
proof fn lemma_balanced_at_end(c: Seq<char>)
    requires
        url_boundary(c) == c.len(),
    ensures
        forall|t: BracketType| #[trigger] first_unbalanced(c, t) is None,
{
    let ts = all_bracket_types();
    crate::extract::lemma_earliest_at_bracket(c, ts);
    lemma_earliest_among_none(c, ts);
    assert forall|t: BracketType| #[trigger] first_unbalanced(c, t) is None by {
        assert(t == ts[0] || t == ts[1] || t == ts[2] || t == ts[3]);
    }
}

/// Where a protocol literal starts at `i` in `s`, none of its first seven
/// characters is a bracket character.
proof fn lemma_protocol_has_no_bracket(s: Seq<char>, i: int, j: int)
    requires
        protocol_at(s, i),
        i <= j < i + 7,
    ensures
        s[j] != '(' && s[j] != ')' && s[j] != '[' && s[j] != ']',
        s[j] != '{' && s[j] != '}' && s[j] != '<' && s[j] != '>',
{
    if occurs_at(s, i, http_literal()) {
        assert(s[j] == s.subrange(i, i + 7)[j - i]);
    } else {
        assert(s[j] == s.subrange(i, i + 8)[j - i]);
    }
}

/// The extracted candidate starts with the protocol literal found first.
proof fn lemma_candidate_keeps_protocol(s: Seq<char>, k: int)
    requires
        is_first_protocol(s, k),
    ensures
        protocol_at(s.subrange(k, k + url_boundary(s.subrange(k, s.len() as int))), 0),
{
    let rest = s.subrange(k, s.len() as int);
    let b = url_boundary(rest);
    lemma_boundary_at_bracket(rest);
    let lit = if occurs_at(s, k, http_literal()) {
        http_literal()
    } else {
        https_literal()
    };
    assert(occurs_at(s, k, lit));
    if b < lit.len() {
        assert(b < rest.len());
        lemma_protocol_has_no_bracket(s, k, k + b);
        assert(rest[b] == s[k + b]);
    }
    let c = s.subrange(k, k + b);
    assert(c.subrange(0, lit.len() as int) =~= s.subrange(k, k + lit.len()));
    assert(occurs_at(c, 0, lit));
}

/// Text without any character has no URL.
pub proof fn law_empty_input_has_no_url(s: Seq<char>)
    requires
        s.len() == 0,
    ensures
        extraction(s) is None,
{
    assert forall|i: int| !is_first_protocol(s, i) by {}
}

/// Text in which no protocol literal starts anywhere has no URL.
pub proof fn law_no_protocol_no_url(s: Seq<char>)
    requires
        forall|i: int| !protocol_at(s, i),
    ensures
        extraction(s) is None,
{
    assert forall|i: int| !is_first_protocol(s, i) by {}
}

/// Brackets of one type that balance among themselves within a stretch `m`
/// never mark where that type breaks its balance in text that holds the
/// stretch: the break, if any, lies before or after it.
pub proof fn law_balanced_stretch_is_not_a_break(
    p: Seq<char>,
    m: Seq<char>,
    q: Seq<char>,
    t: BracketType,
)
    requires
        never_negative(m, t, m.len() as int),
        depth(m, t, m.len() as int) == 0,
    ensures
        first_unbalanced(p + m + q, t) matches Some(i) ==> i < p.len() || i >= p.len() + m.len(),
{
    let s = p + m + q;
    assert forall|j: int| 0 <= j <= m.len() implies #[trigger] depth(s, t, p.len() + j) == depth(
        p,
        t,
        p.len() as int,
    ) + depth(m, t, j) by {
        lemma_depth_prefix(p + m, q, t, p.len() + j);
        lemma_depth_concat(p, m, t, j);
    }
    if exists|i: int| stray_closer(s, t, i) {
        let i = choose|i: int| stray_closer(s, t, i);
        if p.len() <= i < p.len() + m.len() {
            let j = i - p.len();
            assert(depth(s, t, p.len() + 0int) >= 0);
            assert(depth(s, t, p.len() + j) == 0);
            assert(depth(m, t, j) >= 0);
            assert(s[i] == m[j]);
            assert(depth(m, t, j + 1) == depth(m, t, j) - 1);
        }
    } else if exists|i: int| unclosed_opener(s, t, i) {
        let i = choose|i: int| unclosed_opener(s, t, i);
        lemma_never_negative_without_stray(s, t, s.len() as int);
        if p.len() <= i < p.len() + m.len() {
            let j = i - p.len();
            assert(depth(s, t, p.len() + 0int) >= 0);
            assert(depth(s, t, p.len() + j) == 0);
            assert(depth(s, t, (p.len() + m.len()) as int) == 0);
        }
    }
}

/// Balanced text that starts with a protocol literal and is accepted as a
/// URL is extracted whole.
proof fn lemma_extracted_whole(c: Seq<char>)
    requires
        protocol_at(c, 0),
        forall|t: BracketType| #[trigger] first_unbalanced(c, t) is None,
        crate::validate::url_accepted(c),
    ensures
        extraction(c) == Some((0int, c.len() - 1)),
{
    assert(is_first_protocol(c, 0));
    lemma_first_protocol_unique(c, 0, choose|i: int| is_first_protocol(c, i));
    assert(c.subrange(0, c.len() as int) =~= c);
    lemma_boundary_at_end(c);
}

/// What a found URL is made of: the first protocol literal at `a`, the
/// candidate from there up to the boundary, accepted as a URL.
proof fn lemma_extraction_found(s: Seq<char>, a: int, e: int)
    requires
        extraction(s) == Some((a, e)),
    ensures
        is_first_protocol(s, a),
        0 <= a <= e < s.len(),
        e + 1 == a + url_boundary(s.subrange(a, s.len() as int)),
        crate::validate::url_accepted(s.subrange(a, e + 1)),
{
    let k = first_protocol(s)->0;
    assert(is_first_protocol(s, k));
    let rest = s.subrange(k, s.len() as int);
    lemma_boundary_at_bracket(rest);
    if url_boundary(rest) == 0 {
        lemma_protocol_has_no_bracket(s, k, k);
        assert(rest[0] == s[k]);
    }
}

/// Extracting again from the extracted text finds all of it, wherever that
/// text keeps every bracket type balanced.
pub proof fn law_extraction_idempotent(s: Seq<char>, a: int, e: int)
    requires
        extraction(s) == Some((a, e)),
        forall|t: BracketType| #[trigger] first_unbalanced(s.subrange(a, e + 1), t) is None,
    ensures
        extraction(s.subrange(a, e + 1)) == Some((0int, e - a)),
{
    lemma_extraction_found(s, a, e);
    lemma_candidate_keeps_protocol(s, a);
    lemma_extracted_whole(s.subrange(a, e + 1));
}

/// Text extracted whole starts with a protocol literal, keeps every bracket
/// type balanced and is accepted as a URL.
proof fn lemma_whole_extraction(u: Seq<char>)
    requires
        extraction(u) == Some((0int, u.len() - 1)),
    ensures
        protocol_at(u, 0),
        forall|t: BracketType| #[trigger] first_unbalanced(u, t) is None,
        crate::validate::url_accepted(u),
{
    let n = u.len() as int;
    let k0 = first_protocol(u)->0;
    assert(is_first_protocol(u, k0));
    assert(u.subrange(0, n) =~= u);
    lemma_balanced_at_end(u);
}

/// A protocol literal at the start of `u` is the first one of `u` wrapped in
/// brackets, one place on.
proof fn lemma_wrapped_protocol(u: Seq<char>, t: BracketType)
    requires
        protocol_at(u, 0),
    ensures
        first_protocol(seq![opener_of(t)] + u + seq![closer_of(t)]) == Some(1int),
{
    let w = seq![opener_of(t)] + u + seq![closer_of(t)];
    let lit = if occurs_at(u, 0, http_literal()) {
        http_literal()
    } else {
        https_literal()
    };
    assert(occurs_at(u, 0, lit));
    assert(w.subrange(1, 1int + lit.len()) =~= u.subrange(0, lit.len() as int));
    assert(protocol_at(w, 1));
    if protocol_at(w, 0) {
        let lit0 = if occurs_at(w, 0, http_literal()) {
            http_literal()
        } else {
            https_literal()
        };
        assert(w.subrange(0, lit0.len() as int)[0] == w[0]);
    }
    assert(is_first_protocol(w, 1));
    lemma_first_protocol_unique(w, 1, choose|i: int| is_first_protocol(w, i));
}

/// Appending the closer of one bracket type to balanced text puts the
/// boundary at that closer.
proof fn lemma_closer_breaks(u: Seq<char>, t: BracketType)
    requires
        forall|t2: BracketType| #[trigger] first_unbalanced(u, t2) is None,
    ensures
        url_boundary(u + seq![closer_of(t)]) == u.len(),
{
    let n = u.len() as int;
    let ts = all_bracket_types();
    let tail = seq![closer_of(t)];
    let rest = u + tail;
    assert forall|t2: BracketType, j: int| 0 <= j <= n implies #[trigger] depth(rest, t2, j)
        == depth(u, t2, j) by {
        lemma_depth_prefix(u, tail, t2, j);
    }
    assert(first_unbalanced(u, t) is None);
    lemma_balanced_when_none(u, t);
    assert(stray_closer(rest, t, n));
    lemma_stray_closer_unique(rest, t, n, choose|i: int| stray_closer(rest, t, i));
    assert(first_unbalanced(rest, t) == Some(n));
    assert forall|t2: BracketType| t2 != t implies #[trigger] first_unbalanced(rest, t2) is None by {
        assert(first_unbalanced(u, t2) is None);
        lemma_balanced_when_none(u, t2);
        assert(depth(rest, t2, n + 1) == depth(rest, t2, n));
        assert forall|i: int| !stray_closer(rest, t2, i) by {
            if stray_closer(rest, t2, i) && i < n {
                assert(stray_closer(u, t2, i));
            }
        }
        assert forall|i: int| !unclosed_opener(rest, t2, i) by {
            if unclosed_opener(rest, t2, i) {
                assert(depth(rest, t2, n + 1) > 0);
            }
        }
    }
    assert forall|i: int| 0 <= i < ts.len() implies #[trigger] first_unbalanced(rest, ts[i]) is None
        || first_unbalanced(rest, ts[i]) == Some(n) by {
        if ts[i] != t {
            assert(first_unbalanced(rest, ts[i]) is None);
        }
    }
    lemma_earliest_among_single(rest, ts, n);
    lemma_earliest_among_none(rest, ts);
    assert(t == ts[0] || t == ts[1] || t == ts[2] || t == ts[3]);
}

/// Wrapping text that is extracted whole in a matching pair of brackets of
/// any type finds the same URL, one character further on.
pub proof fn law_bracket_wrapping(u: Seq<char>, t: BracketType)
    requires
        extraction(u) == Some((0int, u.len() - 1)),
    ensures
        extraction(seq![opener_of(t)] + u + seq![closer_of(t)]) == Some((1int, u.len() as int)),
{
    let n = u.len() as int;
    let w = seq![opener_of(t)] + u + seq![closer_of(t)];
    lemma_whole_extraction(u);
    lemma_wrapped_protocol(u, t);
    lemma_closer_breaks(u, t);
    assert(w.subrange(1, w.len() as int) =~= u + seq![closer_of(t)]);
    assert(w.subrange(1, 1 + n) =~= u);
}

} // verus!
