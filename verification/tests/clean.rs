//! Scenario tests for the rewrite engine, driven through its public API.

use clipclean::rewrite::clean_url;

fn patterns() -> Vec<String> {
    vec!["delete_me".to_string(), "test@example.com".to_string()]
}

#[test]
fn query_parameters() {
    for (url, expected) in [
        ("http://test.org/meow", "http://test.org/meow"),
        ("http://test.org/page?delete_me", "http://test.org/page"),
        (
            "http://test.org/page?delete_me&keep_me",
            "http://test.org/page?keep_me",
        ),
    ] {
        assert_eq!(clean_url(url, &patterns()).unwrap(), expected.to_string());
    }
}

#[test]
fn url_fragments() {
    for (url, expected) in [
        (
            "http://test.org/page?delete_me#fragment",
            "http://test.org/page#fragment",
        ),
        (
            "http://test.org/page#fragment",
            "http://test.org/page#fragment",
        ),
    ] {
        assert_eq!(clean_url(url, &patterns()).unwrap(), expected.to_string());
    }
}

#[test]
fn no_query_input_is_returned_verbatim() {
    // Even a non-normalized URL comes back exactly as given when it has
    // no query: the rewrite short-circuits before any rebuild.
    let pats = vec!["delete_me".to_string()];
    assert_eq!(
        clean_url("HTTP://Test.org:80/meow", &pats).unwrap(),
        "HTTP://Test.org:80/meow".to_string()
    );
}

#[test]
fn rebuild_reserializes_when_query_is_filtered() {
    // With a query to filter, the URL is rebuilt from its parse, so the
    // serialization is the parser's normalized one.
    let pats = vec!["delete_me".to_string()];
    assert_eq!(
        clean_url("HTTP://Test.org/x?delete_me", &pats).unwrap(),
        "http://test.org/x".to_string()
    );
}

#[test]
fn duplicate_keys_removed_independently() {
    let pats = vec!["delete_me".to_string()];
    assert_eq!(
        clean_url("http://test.org/page?delete_me=1&keep=a&delete_me=2", &pats).unwrap(),
        "http://test.org/page?keep=a".to_string()
    );
}

#[test]
fn survivor_order_is_kept() {
    let pats = vec!["b".to_string()];
    assert_eq!(
        clean_url("http://test.org/page?a=1&b=2&c=3&d=4", &pats).unwrap(),
        "http://test.org/page?a=1&c=3&d=4".to_string()
    );
}

#[test]
fn empty_pattern_list_changes_nothing() {
    let pats: Vec<String> = Vec::new();
    assert_eq!(
        clean_url("http://test.org/page?a=1&b=2", &pats).unwrap(),
        "http://test.org/page?a=1&b=2".to_string()
    );
}

#[test]
fn cleaning_twice_is_cleaning_once() {
    let pats = vec!["utm_*".to_string()];
    let once = clean_url("http://test.org/page?utm_source=x&keep=1&utm_medium=y", &pats).unwrap();
    assert_eq!(once, "http://test.org/page?keep=1".to_string());
    let twice = clean_url(once.as_str(), &pats).unwrap();
    assert_eq!(once, twice);
}

#[test]
fn scoped_pattern_removes_on_matching_host() {
    let pats = vec!["p@example.com".to_string()];
    assert_eq!(
        clean_url("http://example.com/a?p=1&q=2", &pats).unwrap(),
        "http://example.com/a?q=2".to_string()
    );
}

#[test]
fn scoped_pattern_is_inert_on_other_host() {
    let pats = vec!["p@example.com".to_string()];
    assert_eq!(
        clean_url("http://other.org/a?p=1&q=2", &pats).unwrap(),
        "http://other.org/a?p=1&q=2".to_string()
    );
}

#[test]
fn scoped_pattern_domain_glob() {
    let pats = vec!["utm_*@*.example.com".to_string()];
    assert_eq!(
        clean_url("http://www.example.com/a?utm_source=x&q=2", &pats).unwrap(),
        "http://www.example.com/a?q=2".to_string()
    );
    assert_eq!(
        clean_url("http://example.org/a?utm_source=x&q=2", &pats).unwrap(),
        "http://example.org/a?utm_source=x&q=2".to_string()
    );
}

#[test]
fn domain_glob_keeps_later_at_signs() {
    // The pattern is cut at its first `@`; the rest, `@` included, is the
    // domain glob, which here matches no host at all.
    let pats = vec!["p@foo@bar".to_string()];
    assert_eq!(
        clean_url("http://foo/a?p=1", &pats).unwrap(),
        "http://foo/a?p=1".to_string()
    );
}
