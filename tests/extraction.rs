use url_extract::{extract_url, extract_url_with, ProtocolMatcher};

#[test]
fn it_works() {
    assert_eq!(None, extract_url("()"));
    assert_eq!(None, extract_url("http://"));
    assert_eq!(None, extract_url("https://"));
    assert_eq!(Some((0, 9)), extract_url("https://()"));
    assert_eq!(Some((0, 12)), extract_url("http://google"));
    assert_eq!(Some((0, 13)), extract_url("https://google"));

    assert_eq!(
        Some((1, 59)),
        extract_url("(https://en.wikipedia.org/wiki/Slowloris_(computer_security))")
    );

    assert_eq!(
        Some((1, 59)),
        extract_url("[https://en.wikipedia.org/wiki/Slowloris_(computer_security)]")
    );
}

#[test]
fn empty_input_has_no_url() {
    assert_eq!(None, extract_url(""));
}

#[test]
fn input_without_protocol_has_no_url() {
    assert_eq!(None, extract_url("example.com/a_(b)"));
    assert_eq!(None, extract_url("ftp://example.com"));
    assert_eq!(None, extract_url("HTTP://example.com"));
    assert_eq!(None, extract_url("http:/example.com"));
}

#[test]
fn bare_protocol_has_no_url() {
    assert_eq!(None, extract_url("http://"));
    assert_eq!(None, extract_url("https://"));
}

#[test]
fn extracting_the_extracted_text_again_finds_all_of_it() {
    let input = "see:(https://example.com/a_(b))!";
    let (start, end) = extract_url(input).unwrap();
    assert_eq!((5, 29), (start, end));
    let found: String = input.chars().skip(start).take(end - start + 1).collect();
    assert_eq!("https://example.com/a_(b)", found);
    assert_eq!(Some((0, end - start)), extract_url(&found));
}

#[test]
fn each_bracket_pair_wraps_a_url() {
    let url = "https://example.com/x";
    assert_eq!(Some((0, 20)), extract_url(url));
    for (open, close) in [('(', ')'), ('[', ']'), ('{', '}'), ('<', '>')] {
        let wrapped = format!("{}{}{}", open, url, close);
        assert_eq!(Some((1, 21)), extract_url(&wrapped));
    }
}

#[test]
fn balanced_nested_brackets_stay_in_the_url() {
    assert_eq!(Some((0, 32)), extract_url("http://e.org/a_(b_(c)_d)_[e]_{f}g"));
    assert_eq!(Some((0, 19)), extract_url("http://e.org/a_(b)_c)d"));
}

#[test]
fn url_ends_before_a_stray_closer() {
    assert_eq!(Some((0, 13)), extract_url("https://google)"));
    assert_eq!(Some((1, 14)), extract_url("<https://google>"));
}

#[test]
fn url_ends_before_an_unclosed_opener() {
    assert_eq!(Some((0, 13)), extract_url("https://google(abc"));
    assert_eq!(Some((0, 13)), extract_url("https://google[a(b)"));
}

#[test]
fn earliest_break_over_all_bracket_types_wins() {
    // `]` at 14 has no opener; `(` at 16 is never closed.
    assert_eq!(Some((0, 13)), extract_url("https://google](x"));
    // `(` at 14 is never closed; `>` at 17 has no opener.
    assert_eq!(Some((0, 13)), extract_url("https://google(ab>"));
}

#[test]
fn first_protocol_literal_is_used() {
    assert_eq!(Some((4, 31)), extract_url("xyz:http://a.org/p,https://b.org"));
    assert_eq!(Some((4, 17)), extract_url("xyz:http://a.org/p)https://b.org"));
    assert_eq!(Some((2, 16)), extract_url("a=https://b.org/c"));
}

#[test]
fn candidate_that_does_not_parse_is_refused() {
    assert_eq!(None, extract_url("http://[::1"));
    assert_eq!(None, extract_url("http://a b"));
}

#[test]
fn offsets_count_characters() {
    assert_eq!(Some((2, 20)), extract_url("é(https://exámple.com)"));
}

#[test]
fn matcher_built_once_serves_many_inputs() {
    let matcher = ProtocolMatcher::new();
    assert_eq!(Some((1, 14)), extract_url_with(&matcher, "(https://google)"));
    assert_eq!(None, extract_url_with(&matcher, "no url here"));
    assert_eq!(Some((0, 12)), extract_url_with(&matcher, "http://google"));
}
