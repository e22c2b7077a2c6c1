//! Unit tests for the matcher, the rule model, the error cases and the
//! cache.

use clipclean::cache::Cache;
use clipclean::glob::glob_match;
use clipclean::rewrite::clean_url;
use clipclean::rewrite::FilterError;
use clipclean::rules::Category;
use clipclean::rules::Config;

#[test]
fn glob_literal() {
    assert!(glob_match("abc", "abc"));
    assert!(!glob_match("abc", "abx"));
    assert!(!glob_match("abc", "ab"));
    assert!(!glob_match("abc", "abcd"));
    assert!(glob_match("", ""));
    assert!(!glob_match("", "a"));
}

#[test]
fn glob_star() {
    assert!(glob_match("*", ""));
    assert!(glob_match("*", "anything"));
    assert!(glob_match("utm_*", "utm_source"));
    assert!(glob_match("utm_*", "utm_"));
    assert!(!glob_match("utm_*", "id"));
    assert!(glob_match("a*b", "ab"));
    assert!(glob_match("a*b", "axyzb"));
    assert!(!glob_match("a*b", "axyz"));
    assert!(glob_match("*.example.com", "www.example.com"));
    assert!(!glob_match("*.example.com", "example.com"));
}

#[test]
fn glob_question_mark() {
    assert!(glob_match("a?c", "abc"));
    assert!(!glob_match("a?c", "ac"));
    assert!(!glob_match("a?", "a"));
    assert!(glob_match("??", "ab"));
}

#[test]
fn glob_is_case_sensitive() {
    assert!(!glob_match("abc", "ABC"));
    assert!(!glob_match("A?c", "abc"));
}

#[test]
fn non_url_text_is_rejected() {
    let pats: Vec<String> = Vec::new();
    assert_eq!(clean_url("hello world", &pats), Err(FilterError::NotAUrl));
    assert_eq!(clean_url("", &pats), Err(FilterError::NotAUrl));
    assert_eq!(clean_url("/relative/path?x=1", &pats), Err(FilterError::NotAUrl));
}

#[test]
fn url_without_host_is_rejected() {
    let pats = vec!["delete_me".to_string()];
    assert_eq!(clean_url("mailto:user@host", &pats), Err(FilterError::NoHost));
    assert_eq!(
        clean_url("data:text/plain,delete_me", &pats),
        Err(FilterError::NoHost)
    );
}

#[test]
fn config_keeps_enabled_categories_in_order() {
    let cats = vec![
        Category {
            name: "one".to_string(),
            disabled: false,
            params: vec!["a".to_string(), "b".to_string()],
        },
        Category {
            name: "off".to_string(),
            disabled: true,
            params: vec!["x".to_string()],
        },
        Category {
            name: "two".to_string(),
            disabled: false,
            params: vec!["c".to_string()],
        },
    ];
    let config = Config::new(cats);
    assert_eq!(config.categories.len(), 2);
    assert_eq!(config.categories[0].name, "one".to_string());
    assert_eq!(config.categories[1].name, "two".to_string());
    assert_eq!(
        config.flat(),
        vec!["a".to_string(), "b".to_string(), "c".to_string()]
    );
}

#[test]
fn config_of_nothing_is_empty() {
    let config = Config::new(Vec::new());
    assert_eq!(config.categories.len(), 0);
    assert_eq!(config.flat(), Vec::<String>::new());
}

#[test]
fn cache_replays_identical_calls() {
    let mut cache = Cache::new();
    let pats = vec!["delete_me".to_string()];
    let first = cache.get_or_compute("http://test.org/page?delete_me&keep_me", &pats);
    let second = cache.get_or_compute("http://test.org/page?delete_me&keep_me", &pats);
    assert_eq!(first, second);
    assert_eq!(first.unwrap(), "http://test.org/page?keep_me".to_string());
}

#[test]
fn cache_matches_direct_calls() {
    let mut cache = Cache::new();
    let pats = vec!["delete_me".to_string()];
    for url in [
        "http://test.org/page?delete_me",
        "http://test.org/other?keep_me",
        "not a url",
        "http://test.org/page?delete_me",
    ] {
        assert_eq!(cache.get_or_compute(url, &pats), clean_url(url, &pats));
    }
}

#[test]
fn cache_stores_failures_too() {
    let mut cache = Cache::new();
    let pats: Vec<String> = Vec::new();
    assert_eq!(cache.get_or_compute("no url here", &pats), Err(FilterError::NotAUrl));
    assert_eq!(cache.get_or_compute("no url here", &pats), Err(FilterError::NotAUrl));
    assert_eq!(
        cache.get_or_compute("mailto:a@b", &pats),
        Err(FilterError::NoHost)
    );
}

#[test]
fn cache_stays_within_capacity() {
    let mut cache = Cache::new();
    let pats: Vec<String> = Vec::new();
    for i in 0..1100 {
        let url = format!("http://t/?{i}");
        let _ = cache.get_or_compute(&url, &pats);
    }
    assert_eq!(cache.entries.len(), 1024);
}

#[test]
fn cache_distinguishes_pattern_lists() {
    let mut cache = Cache::new();
    let with = vec!["p".to_string()];
    let without: Vec<String> = Vec::new();
    assert_eq!(
        cache.get_or_compute("http://test.org/a?p=1", &with).unwrap(),
        "http://test.org/a".to_string()
    );
    assert_eq!(
        cache.get_or_compute("http://test.org/a?p=1", &without).unwrap(),
        "http://test.org/a?p=1".to_string()
    );
}
