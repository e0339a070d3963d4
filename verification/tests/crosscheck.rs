use thompson_nfa::crosscheck::{anchored, crosscheck_compile, crosscheck_is_match};
use thompson_nfa::matcher::Matcher;
use thompson_nfa::nfa::NFA;
use thompson_nfa::parser::re2post;

fn nfa_matches(pattern: &str, haystack: &str) -> bool {
    let post = re2post(pattern.as_bytes()).expect("pattern should convert");
    let nfa = NFA::post2nfa(&post).expect("postfix should build");
    Matcher::new(nfa).is_match(haystack.as_bytes())
}

fn regex_matches(pattern: &str, haystack: &str) -> bool {
    let re = crosscheck_compile(&pattern.as_bytes().to_vec()).expect("pattern should compile");
    crosscheck_is_match(&re, &haystack.as_bytes().to_vec())
}

#[test]
fn anchoring_wraps_the_pattern() {
    assert_eq!(anchored(&b"a|b".to_vec()), b"^(?:a|b)$".to_vec());
    assert_eq!(anchored(&b"".to_vec()), b"^(?:)$".to_vec());
}

#[test]
fn crosscheck_rejects_what_the_library_rejects() {
    for bad in ["", "a|", "(a|)", "a||b", "(", ")", "a.b"] {
        assert!(crosscheck_compile(&bad.as_bytes().to_vec()).is_none());
    }
}

#[test]
fn crosscheck_accepts_valid_patterns() {
    for good in ["a", "abc", "a|b", "a*", "(ab)+", "a?b", "a(b|c)*d"] {
        assert!(crosscheck_compile(&good.as_bytes().to_vec()).is_some());
    }
}

#[test]
fn crosscheck_is_full_string_not_substring() {
    // an unanchored search would find "ab" inside "xaby"
    assert!(!regex_matches("ab", "xaby"));
    assert!(!regex_matches("ab", "aby"));
    assert!(!regex_matches("ab", "xab"));
    assert!(regex_matches("ab", "ab"));
}

#[test]
fn engines_agree() {
    let patterns = ["abc", "a|b", "a*", "a+", "(ab)+", "a?b", "a(b|c)*d", "(a*)*"];
    let haystacks = ["", "a", "b", "ab", "abc", "aab", "abab", "aba", "abcbd", "aaaa", "c"];
    for pattern in patterns {
        for haystack in haystacks {
            assert_eq!(
                nfa_matches(pattern, haystack),
                regex_matches(pattern, haystack),
                "engines disagree on pattern {pattern:?} and haystack {haystack:?}",
            );
        }
    }
}
