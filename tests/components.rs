use url_extract::{
    accepts_parsed, find_first_unbalanced, is_valid_url, resolve_boundary, BracketType,
    ProtocolMatcher,
};

#[test]
fn bracket_types_and_their_characters() {
    let types = BracketType::iter();
    assert_eq!(4, types.len());
    let pairs: Vec<(char, char)> = types.iter().map(|t| (t.opener(), t.closer())).collect();
    assert_eq!(vec![('(', ')'), ('[', ']'), ('{', '}'), ('<', '>')], pairs);
}

#[test]
fn scanner_finds_stray_closer() {
    assert_eq!(Some(3), find_first_unbalanced("abc)d", BracketType::Paren));
    assert_eq!(Some(0), find_first_unbalanced("]", BracketType::Bracket));
    assert_eq!(Some(4), find_first_unbalanced("(a)b)(", BracketType::Paren));
}

#[test]
fn scanner_finds_outermost_unclosed_opener() {
    assert_eq!(Some(1), find_first_unbalanced("a{b{c}", BracketType::Brace));
    assert_eq!(Some(3), find_first_unbalanced("<a><<b>", BracketType::Angled));
    assert_eq!(Some(0), find_first_unbalanced("((", BracketType::Paren));
}

#[test]
fn scanner_accepts_balanced_text() {
    assert_eq!(None, find_first_unbalanced("", BracketType::Paren));
    assert_eq!(None, find_first_unbalanced("a(b(c)d)e", BracketType::Paren));
    assert_eq!(None, find_first_unbalanced("a(b]c", BracketType::Brace));
}

#[test]
fn scanner_ignores_other_bracket_types() {
    assert_eq!(Some(0), find_first_unbalanced(")]}>", BracketType::Paren));
    assert_eq!(Some(1), find_first_unbalanced(")]}>", BracketType::Bracket));
    assert_eq!(Some(2), find_first_unbalanced(")]}>", BracketType::Brace));
    assert_eq!(Some(3), find_first_unbalanced(")]}>", BracketType::Angled));
}

#[test]
fn scanner_counts_characters() {
    assert_eq!(Some(2), find_first_unbalanced("éé)", BracketType::Paren));
}

#[test]
fn boundary_is_the_earliest_break() {
    assert_eq!(5, resolve_boundary("ab(c)]d(e"));
    assert_eq!(2, resolve_boundary("ab(c]"));
    assert_eq!(7, resolve_boundary("a(b)[c]"));
    assert_eq!(0, resolve_boundary(""));
}

#[test]
fn protocol_offset_is_first_literal_in_characters() {
    let m = ProtocolMatcher::new();
    assert_eq!(Some(0), m.first_protocol_offset("http://a"));
    assert_eq!(Some(3), m.first_protocol_offset("éééhttps://a http://b"));
    assert_eq!(Some(1), m.first_protocol_offset("xhttps://a"));
    assert_eq!(None, m.first_protocol_offset("http:/a https:a"));
    assert_eq!(None, m.first_protocol_offset(""));
}

#[test]
fn parsed_outcome_needs_a_non_empty_host() {
    assert!(accepts_parsed(&Ok(Some("example.com".to_string()))));
    assert!(!accepts_parsed(&Ok(Some(String::new()))));
    assert!(!accepts_parsed(&Ok(None)));
    assert!(!accepts_parsed(&Err(url::ParseError::EmptyHost)));
    assert!(!accepts_parsed(&Err(url::ParseError::RelativeUrlWithoutBase)));
}

#[test]
fn candidate_validation_uses_the_parser() {
    assert!(is_valid_url("https://example.com/a"));
    assert!(is_valid_url("http://google"));
    assert!(!is_valid_url("https://"));
    assert!(!is_valid_url("example.com"));
    assert!(!is_valid_url("mailto:someone@example.com"));
}
