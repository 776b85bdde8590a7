use vstd::prelude::*;

verus! {

/// The four kinds of bracket that may wrap a URL or appear inside one.
#[derive(Debug, Clone, Copy)]
pub enum BracketType {
    Paren,
    Bracket,
    Brace,
    Angled,
}

/// The character that opens a bracket of type `t`.
pub open spec fn opener_of(t: BracketType) -> char {
    match t {
        BracketType::Paren => '(',
        BracketType::Bracket => '[',
        BracketType::Brace => '{',
        BracketType::Angled => '<',
    }
}

/// The character that closes a bracket of type `t`.
pub open spec fn closer_of(t: BracketType) -> char {
    match t {
        BracketType::Paren => ')',
        BracketType::Bracket => ']',
        BracketType::Brace => '}',
        BracketType::Angled => '>',
    }
}

/// Every bracket type, in the order in which they are scanned.
pub open spec fn all_bracket_types() -> Seq<BracketType> {
    seq![BracketType::Paren, BracketType::Bracket, BracketType::Brace, BracketType::Angled]
}

/// Nesting depth of bracket type `t` after the first `k` characters of `s`:
/// the openers minus the closers among them.
pub open spec fn depth(s: Seq<char>, t: BracketType, k: int) -> int
    decreases k,
{
    if k <= 0 || k > s.len() {
        0
    } else {
        depth(s, t, k - 1) + if s[k - 1] == opener_of(t) {
            1int
        } else if s[k - 1] == closer_of(t) {
            -1int
        } else {
            0int
        }
    }
}

/// The depth never drops below zero within the first `k` characters.
pub open spec fn never_negative(s: Seq<char>, t: BracketType, k: int) -> bool {
    forall|j: int| 0 <= j <= k ==> #[trigger] depth(s, t, j) >= 0
}

/// Position `i` holds a closer that matches no earlier opener: the first point
/// at which the depth would fall below zero.
pub open spec fn stray_closer(s: Seq<char>, t: BracketType, i: int) -> bool {
    &&& 0 <= i < s.len()
    &&& s[i] == closer_of(t)
    &&& depth(s, t, i) == 0
    &&& never_negative(s, t, i)
}

/// Position `i` holds an opener opened at depth zero and never closed before
/// the end of `s`: the outermost opener that is left open.
pub open spec fn unclosed_opener(s: Seq<char>, t: BracketType, i: int) -> bool {
    &&& 0 <= i < s.len()
    &&& s[i] == opener_of(t)
    &&& depth(s, t, i) == 0
    &&& forall|k: int| i < k <= s.len() ==> #[trigger] depth(s, t, k) > 0
}

/// Where brackets of type `t` first break their balance in `s`: the stray
/// closer if there is one, else the outermost unclosed opener, else nothing.
pub open spec fn first_unbalanced(s: Seq<char>, t: BracketType) -> Option<int> {
    if exists|i: int| stray_closer(s, t, i) {
        Some(choose|i: int| stray_closer(s, t, i))
    } else if exists|i: int| unclosed_opener(s, t, i) {
        Some(choose|i: int| unclosed_opener(s, t, i))
    } else {
        None
    }
}

/// An optional offset seen as an optional integer.
pub open spec fn offset_as_int(o: Option<usize>) -> Option<int> {
    match o {
        Some(i) => Some(i as int),
        None => None,
    }
}

/// At most one position holds a stray closer.
pub proof fn lemma_stray_closer_unique(s: Seq<char>, t: BracketType, i: int, j: int)
    requires
        stray_closer(s, t, i),
        stray_closer(s, t, j),
    ensures
        i == j,
{
    if i < j {
        assert(depth(s, t, i + 1) == -1);
    } else if j < i {
        assert(depth(s, t, j + 1) == -1);
    }
}

/// At most one position holds an unclosed opener.
pub proof fn lemma_unclosed_opener_unique(s: Seq<char>, t: BracketType, i: int, j: int)
    requires
        unclosed_opener(s, t, i),
        unclosed_opener(s, t, j),
    ensures
        i == j,
{
    if i < j {
        assert(depth(s, t, j) > 0);
    } else if j < i {
        assert(depth(s, t, i) > 0);
    }
}

/// Where the depth never falls below zero, no stray closer lies before the end.
pub proof fn lemma_no_stray_closer(s: Seq<char>, t: BracketType, i: int)
    requires
        never_negative(s, t, s.len() as int),
    ensures
        !stray_closer(s, t, i),
{
    if stray_closer(s, t, i) {
        assert(depth(s, t, i + 1) == -1);
    }
}

/// Depth over a joined sequence: past the end of `a`, the depth of `a`
/// carries over and the depth of `b` adds to it.
pub proof fn lemma_depth_concat(a: Seq<char>, b: Seq<char>, t: BracketType, j: int)
    requires
        0 <= j <= b.len(),
    ensures
        depth(a + b, t, a.len() + j) == depth(a, t, a.len() as int) + depth(b, t, j),
    decreases j,
{
    if j > 0 {
        lemma_depth_concat(a, b, t, j - 1);
        assert((a + b)[a.len() + j - 1] == b[j - 1]);
    } else {
        lemma_depth_prefix(a, b, t, a.len() as int);
    }
}

/// Depth within a prefix does not depend on what follows it.
pub proof fn lemma_depth_prefix(a: Seq<char>, b: Seq<char>, t: BracketType, k: int)
    requires
        0 <= k <= a.len(),
    ensures
        depth(a + b, t, k) == depth(a, t, k),
    decreases k,
{
    if k > 0 {
        lemma_depth_prefix(a, b, t, k - 1);
        assert((a + b)[k - 1] == a[k - 1]);
    }
}

/// Without a stray closer, the depth never falls below zero.
pub proof fn lemma_never_negative_without_stray(s: Seq<char>, t: BracketType, k: int)
    requires
        0 <= k <= s.len(),
        forall|i: int| !stray_closer(s, t, i),
    ensures
        never_negative(s, t, k),
    decreases k,
{
    if k > 0 {
        lemma_never_negative_without_stray(s, t, k - 1);
        assert(!stray_closer(s, t, k - 1));
        assert forall|j: int| 0 <= j <= k implies #[trigger] depth(s, t, j) >= 0 by {
            if j < k {
                assert(depth(s, t, j) >= 0);
            } else {
                assert(depth(s, t, k - 1) >= 0);
                if s[k - 1] == closer_of(t) {
                    assert(depth(s, t, k - 1) != 0);
                    assert(depth(s, t, k) == depth(s, t, k - 1) - 1);
                }
            }
        }
    }
}

/// Where the depth is positive at `k` and stays positive up to the end, some
/// opener is left unclosed.
proof fn lemma_unclosed_opener_exists(s: Seq<char>, t: BracketType, k: int)
    requires
        0 <= k <= s.len(),
        never_negative(s, t, s.len() as int),
        forall|m: int| k <= m <= s.len() ==> #[trigger] depth(s, t, m) > 0,
    ensures
        exists|i: int| unclosed_opener(s, t, i),
    decreases k,
{
    assert(depth(s, t, k) > 0);
    assert(k > 0);
    assert(depth(s, t, k - 1) >= 0);
    if depth(s, t, k - 1) == 0 {
        assert(unclosed_opener(s, t, k - 1));
    } else {
        lemma_unclosed_opener_exists(s, t, k - 1);
    }
}

/// Where brackets of one type never break their balance, the depth never
/// falls below zero and ends at zero.
pub proof fn lemma_balanced_when_none(s: Seq<char>, t: BracketType)
    requires
        first_unbalanced(s, t) is None,
    ensures
        never_negative(s, t, s.len() as int),
        depth(s, t, s.len() as int) == 0,
{
    lemma_never_negative_without_stray(s, t, s.len() as int);
    if depth(s, t, s.len() as int) > 0 {
        lemma_unclosed_opener_exists(s, t, s.len() as int);
    }
}

impl BracketType {
    /// All bracket types.
    pub fn iter() -> (r: Vec<BracketType>)
        ensures
            r@ == all_bracket_types(),
    {
        let r = vec![BracketType::Paren, BracketType::Bracket, BracketType::Brace, BracketType::Angled];
        assert(r@ =~= all_bracket_types());
        r
    }

    pub fn opener(&self) -> (c: char)
        ensures
            c == opener_of(*self),
    {
        match *self {
            BracketType::Paren => '(',
            BracketType::Bracket => '[',
            BracketType::Brace => '{',
            BracketType::Angled => '<',
        }
    }

    pub fn closer(&self) -> (c: char)
        ensures
            c == closer_of(*self),
    {
        match *self {
            BracketType::Paren => ')',
            BracketType::Bracket => ']',
            BracketType::Brace => '}',
            BracketType::Angled => '>',
        }
    }
}

/// Scans `input` for brackets of one type and returns the offset (in
/// characters) where their balance first breaks: a closer with no opener
/// before it, or else the outermost opener that is never closed.
pub fn find_first_unbalanced(input: &str, bracket_type: BracketType) -> (r: Option<usize>)
    ensures
        offset_as_int(r) == first_unbalanced(input@, bracket_type),
{
    let ghost s = input@;
    let n = input.unicode_len();
    let mut stack: Vec<usize> = Vec::new();
    let opener = bracket_type.opener();
    let closer = bracket_type.closer();
    let mut i: usize = 0;
    for c in it: input.chars()
        invariant
            s == input@,
            n == s.len(),
            it.seq() == s,
            i == it.index(),
            i <= n,
            opener == opener_of(bracket_type),
            closer == closer_of(bracket_type),
            never_negative(s, bracket_type, i as int),
            stack@.len() == depth(s, bracket_type, i as int),
            stack@.len() > 0 ==> {
                let f = stack@[0] as int;
                &&& f < i
                &&& s[f] == opener
                &&& depth(s, bracket_type, f) == 0
                &&& forall|k: int| f < k <= i ==> #[trigger] depth(s, bracket_type, k) > 0
            },
    {
        assert(c == s[i as int]);
        if c == opener {
            stack.push(i);
        }
        if c == closer {
            if stack.len() == 0 {
                proof {
                    assert(stray_closer(s, bracket_type, i as int));
                    let k = choose|k: int| stray_closer(s, bracket_type, k);
                    lemma_stray_closer_unique(s, bracket_type, i as int, k);
                }
                return Some(i);
            } else {
                stack.pop();
            }
        }
        proof {
            assert(depth(s, bracket_type, i + 1) == depth(s, bracket_type, i as int) + if c == opener {
                1int
            } else if c == closer {
                -1int
            } else {
                0int
            });
        }
        i = i + 1;
    }
    proof {
        assert forall|j: int| !stray_closer(s, bracket_type, j) by {
            lemma_no_stray_closer(s, bracket_type, j);
        }
    }
    if stack.len() > 0 {
        proof {
            let f = stack@[0] as int;
            assert(unclosed_opener(s, bracket_type, f));
            let k = choose|k: int| unclosed_opener(s, bracket_type, k);
            lemma_unclosed_opener_unique(s, bracket_type, f, k);
        }
        return Some(stack[0]);
    }
    proof {
        assert forall|j: int| !unclosed_opener(s, bracket_type, j) by {
            if unclosed_opener(s, bracket_type, j) {
                assert(depth(s, bracket_type, s.len() as int) > 0);
            }
        }
    }
    None
}

} // verus!
