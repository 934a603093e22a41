use cafetera::text::{
    characters, parse_index, same_text, slice, split_segments, starts_with, strip_prefix,
    strip_trailing_slash,
};
use cafetera::utils::{compare_path, get_path_args, wildcard, SimpleRNG};

fn owned(parts: &[&str]) -> Vec<String> {
    parts.iter().map(|s| s.to_string()).collect()
}

fn bound(pairs: &[(&str, &str)]) -> Option<Vec<(String, String)>> {
    Some(pairs.iter().map(|(k, v)| (k.to_string(), v.to_string())).collect())
}

#[test]
fn template_with_wildcard_matches_path() {
    assert!(compare_path("/users/{id}".to_string(), "/users/5".to_string()));
}

#[test]
fn template_with_more_segments_does_not_match() {
    assert!(!compare_path("/users/{id}/x".to_string(), "/users/5".to_string()));
}

#[test]
fn wildcard_binds_its_name() {
    assert_eq!(
        get_path_args("/users/5".to_string(), "/users/{id}".to_string()),
        bound(&[("id", "5")])
    );
}

#[test]
fn literal_segments_must_be_equal() {
    assert!(compare_path("/a/b".to_string(), "/a/b".to_string()));
    assert!(!compare_path("/a/b".to_string(), "/a/c".to_string()));
    assert!(!compare_path("/a/b".to_string(), "/a/B".to_string()));
}

#[test]
fn wildcard_matches_an_empty_segment() {
    assert!(compare_path("/users/{id}".to_string(), "/users/".to_string()));
}

#[test]
fn empty_template_matches_only_the_empty_path() {
    assert!(compare_path("".to_string(), "".to_string()));
    assert!(!compare_path("".to_string(), "/".to_string()));
    assert!(!compare_path("".to_string(), "a".to_string()));
}

#[test]
fn trailing_slash_changes_the_match() {
    assert!(!compare_path("/users".to_string(), "/users/".to_string()));
    assert!(!compare_path("/users/".to_string(), "/users".to_string()));
    assert!(compare_path("/users/".to_string(), "/users/".to_string()));
}

#[test]
fn braces_in_the_path_are_literal() {
    assert!(!compare_path("/users/5".to_string(), "/users/{id}".to_string()));
}

#[test]
fn half_a_brace_is_no_wildcard() {
    assert!(!wildcard("{id"));
    assert!(!wildcard("id}"));
    assert!(!wildcard("{"));
    assert!(!wildcard(""));
    assert!(wildcard("{}"));
    assert!(wildcard("{id}"));
    assert!(!compare_path("/{id".to_string(), "/5".to_string()));
}

#[test]
fn equal_segments_bind_nothing() {
    assert_eq!(get_path_args("/a/b".to_string(), "/a/b".to_string()), bound(&[]));
}

#[test]
fn mismatch_binds_nothing_at_all() {
    assert_eq!(get_path_args("/a/5".to_string(), "/b/{id}".to_string()), None);
}

#[test]
fn bindings_come_in_segment_order() {
    assert_eq!(
        get_path_args("/u/7/p/9".to_string(), "/u/{user}/p/{post}".to_string()),
        bound(&[("user", "7"), ("post", "9")])
    );
}

#[test]
fn a_repeated_name_keeps_its_last_value() {
    assert_eq!(
        get_path_args("/1/2/3".to_string(), "/{a}/{b}/{a}".to_string()),
        bound(&[("a", "3"), ("b", "2")])
    );
}

#[test]
fn extraction_walks_the_segments_that_both_have() {
    assert_eq!(
        get_path_args("/u/7/extra".to_string(), "/u/{id}".to_string()),
        bound(&[("id", "7")])
    );
    assert_eq!(
        get_path_args("/u".to_string(), "/u/{id}".to_string()),
        bound(&[])
    );
}

#[test]
fn a_wildcard_equal_to_its_segment_binds_nothing() {
    assert_eq!(get_path_args("/{id}".to_string(), "/{id}".to_string()), bound(&[]));
}

#[test]
fn a_match_can_always_be_extracted() {
    let template = "/shop/{item}/{size}".to_string();
    let path = "/shop/shoe/42".to_string();
    assert!(compare_path(template.clone(), path.clone()));
    assert_eq!(get_path_args(path, template), bound(&[("item", "shoe"), ("size", "42")]));
}

#[test]
fn split_keeps_empty_segments() {
    assert_eq!(split_segments(""), owned(&[""]));
    assert_eq!(split_segments("/"), owned(&["", ""]));
    assert_eq!(split_segments("/a//b/"), owned(&["", "a", "", "b", ""]));
    assert_eq!(split_segments("abc"), owned(&["abc"]));
}

#[test]
fn split_counts_characters_not_bytes() {
    assert_eq!(split_segments("/caf\u{e9}/\u{1f375}"), owned(&["", "caf\u{e9}", "\u{1f375}"]));
    assert_eq!(characters("t\u{e9}"), vec!['t', '\u{e9}']);
    assert_eq!(slice("t\u{e9}a", 1, 2), "\u{e9}".to_string());
}

#[test]
fn prefixes() {
    assert!(starts_with("/db/list", "/db"));
    assert!(starts_with("/db", "/db"));
    assert!(starts_with("/db", ""));
    assert!(!starts_with("/d", "/db"));
    assert!(!starts_with("/da/x", "/db"));
    assert_eq!(strip_prefix("/db/list", "/db"), Some("/list".to_string()));
    assert_eq!(strip_prefix("/db", "/db"), Some(String::new()));
    assert_eq!(strip_prefix("/other", "/db"), None);
}

#[test]
fn one_trailing_slash_is_dropped() {
    assert_eq!(strip_trailing_slash("/a/"), "/a".to_string());
    assert_eq!(strip_trailing_slash("/a//"), "/a/".to_string());
    assert_eq!(strip_trailing_slash("/a"), "/a".to_string());
    assert_eq!(strip_trailing_slash(""), String::new());
    assert_eq!(strip_trailing_slash("/"), String::new());
}

#[test]
fn texts_are_compared_by_characters() {
    assert!(same_text("GET", "GET"));
    assert!(!same_text("GET", "get"));
    assert!(!same_text("GET", "GETS"));
    assert!(same_text("", ""));
}

#[test]
fn an_index_is_decimal_digits() {
    assert_eq!(parse_index("0"), Some(0));
    assert_eq!(parse_index("42"), Some(42));
    assert_eq!(parse_index("007"), Some(7));
    assert_eq!(parse_index(""), None);
    assert_eq!(parse_index("-1"), None);
    assert_eq!(parse_index("+1"), None);
    assert_eq!(parse_index("1a"), None);
    assert_eq!(parse_index(" 1"), None);
    assert_eq!(parse_index("\u{661}"), None);
}

#[test]
fn an_index_fits_the_machine_word() {
    assert_eq!(parse_index(&usize::MAX.to_string()), Some(usize::MAX));
    assert_eq!(parse_index(&format!("{}0", usize::MAX)), None);
    assert_eq!(parse_index("99999999999999999999999999999999999999999"), None);
}

#[test]
fn generator_steps_from_its_seed() {
    let mut rng = SimpleRNG::new_with_seed(1);
    assert_eq!(rng.next(), 97109012204693);
    assert_eq!(rng.next(), 110554079350668);
}

#[test]
fn generator_wraps_around() {
    let mut rng = SimpleRNG::new_with_seed(u64::MAX);
    assert_eq!(rng.next(), 184365964505962);
    let mut zero = SimpleRNG::new_with_seed(0);
    assert_eq!(zero.next(), 0);
}

#[test]
fn generator_draws_within_the_range() {
    let mut rng = SimpleRNG::new_with_seed(1);
    assert_eq!(rng.next_range(0, 100), 93);
    let mut again = SimpleRNG::new_with_seed(1);
    assert_eq!(again.next_range(10, 15), 13);
    let mut one = SimpleRNG::new_with_seed(7);
    assert_eq!(one.next_range(5, 6), 5);
}

#[test]
fn generator_seeded_by_the_clock_draws_within_the_range() {
    let mut rng = SimpleRNG::new();
    for _ in 0..20 {
        let n = rng.next_range(0, 100);
        assert!(n < 100);
    }
}

#[test]
fn a_clock_reading_decides_the_seed() {
    let mut read = SimpleRNG::from_reading(Some(1));
    assert_eq!(read.next(), 97109012204693);
    let mut late = SimpleRNG::from_reading(Some(u64::MAX));
    assert_eq!(late.next(), 184365964505962);
    let mut early = SimpleRNG::from_reading(None);
    let mut zero = SimpleRNG::new_with_seed(0);
    assert_eq!(early.next(), zero.next());
    assert_eq!(early.next(), zero.next());
}
