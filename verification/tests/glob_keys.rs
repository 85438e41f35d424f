use feox_server::protocol::command::glob::{extract_prefix, glob_match, match_pattern};

#[test]
fn glob_star_and_question_mark() {
    assert!(glob_match("*", ""));
    assert!(glob_match("*", "anything"));
    assert!(glob_match("h?llo", "hello"));
    assert!(!glob_match("h?llo", "hllo"));
    assert!(glob_match("a*b*c", "axxbyyc"));
    assert!(!glob_match("a*b*c", "axxbyy"));
    assert!(glob_match("user:*", "user:42"));
    assert!(!glob_match("user:*", "usr:42"));
    assert!(glob_match("abc**", "abc"));
    assert!(!glob_match("abc", "abcd"));
}

#[test]
fn glob_backtracks_over_stars() {
    assert!(glob_match("*ab", "aab"));
    assert!(glob_match("*a*a", "banana"));
    assert!(!glob_match("*x", "banana"));
}

#[test]
fn prefix_stops_at_first_wildcard() {
    assert_eq!(extract_prefix("user:*"), "user:");
    assert_eq!(extract_prefix("abc"), "abc");
    assert_eq!(extract_prefix("[a]x"), "");
    assert_eq!(extract_prefix("ke?y"), "ke");
    assert_eq!(extract_prefix("é*"), "é");
}

#[test]
fn keys_are_matched_as_text() {
    assert!(match_pattern(b"user:1", "user:*"));
    assert!(!match_pattern(b"admin:1", "user:*"));
    assert!(match_pattern(&[0xff, b'x'], "*x"));
}
