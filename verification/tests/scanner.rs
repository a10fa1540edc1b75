use atelier_native_scanner::scanner::{contains_token, scan_code};

fn scan(text: &str, forbidden: &[&str]) -> (bool, Vec<String>) {
    let list: Vec<String> = forbidden.iter().map(|s| s.to_string()).collect();
    scan_code(text.to_string(), list)
}

fn strings(words: &[&str]) -> Vec<String> {
    words.iter().map(|s| s.to_string()).collect()
}

#[test]
fn safe_iff_matches_empty() {
    let cases: &[(&str, &[&str])] = &[
        ("import os", &["os", "eval"]),
        ("clean text", &["os.system"]),
        ("", &[]),
        ("x", &["x", "y", "x"]),
    ];
    for (text, forbidden) in cases {
        let (is_safe, matches) = scan(text, forbidden);
        assert_eq!(is_safe, matches.is_empty());
    }
}

#[test]
fn empty_forbidden_list_is_safe() {
    let (is_safe, matches) = scan("anything at all; eval(); rm -rf", &[]);
    assert!(is_safe);
    assert!(matches.is_empty());
}

#[test]
fn token_reported_iff_contained() {
    let (_, matches) = scan("abc def", &["abc", "xyz", "c d", "fg"]);
    assert_eq!(matches, strings(&["abc", "c d"]));
}

#[test]
fn order_and_multiplicity_preserved() {
    let (is_safe, matches) = scan("ab", &["b", "zz", "a", "b"]);
    assert!(!is_safe);
    assert_eq!(matches, strings(&["b", "a", "b"]));
}

#[test]
fn scan_is_deterministic() {
    let first = scan("import os; eval(x)", &["eval", "exec", "os"]);
    let second = scan("import os; eval(x)", &["eval", "exec", "os"]);
    assert_eq!(first, second);
}

#[test]
fn matching_is_case_sensitive() {
    let (is_safe, matches) = scan("Hello World", &["hello"]);
    assert!(is_safe);
    assert!(matches.is_empty());
}

#[test]
fn forbidden_call_is_reported() {
    let (is_safe, matches) = scan("import os; os.system('rm -rf /')", &["os.system", "eval"]);
    assert!(!is_safe);
    assert_eq!(matches, strings(&["os.system"]));
}

#[test]
fn clean_code_is_safe() {
    let (is_safe, matches) = scan("print('hi')", &["os.system", "eval"]);
    assert!(is_safe);
    assert!(matches.is_empty());
}

#[test]
fn empty_text_is_safe() {
    let (is_safe, matches) = scan("", &["x"]);
    assert!(is_safe);
    assert!(matches.is_empty());
}

#[test]
fn duplicate_forbidden_entries_reported_each() {
    let (is_safe, matches) = scan("bad bad", &["bad", "bad"]);
    assert!(!is_safe);
    assert_eq!(matches, strings(&["bad", "bad"]));
}

#[test]
fn empty_token_matches_every_text() {
    let (is_safe, matches) = scan("abc", &[""]);
    assert!(!is_safe);
    assert_eq!(matches, strings(&[""]));

    let (is_safe, matches) = scan("", &[""]);
    assert!(!is_safe);
    assert_eq!(matches, strings(&[""]));
}

#[test]
fn containment_at_each_position() {
    assert!(contains_token("hello", "hello"));
    assert!(contains_token("hello", "he"));
    assert!(contains_token("hello", "ell"));
    assert!(contains_token("hello", "lo"));
    assert!(contains_token("hello", ""));
    assert!(!contains_token("hello", "xyz"));
    assert!(!contains_token("hello", "hello!"));
    assert!(!contains_token("", "a"));
    assert!(contains_token("", ""));
}

#[test]
fn containment_is_character_exact() {
    assert!(contains_token("caf\u{e9} au lait", "caf\u{e9}"));
    assert!(!contains_token("cafe au lait", "caf\u{e9}"));
    assert!(contains_token("a\u{1f600}b", "\u{1f600}"));
    assert!(!contains_token("ab", "\u{1f600}"));
}

#[test]
fn no_early_termination_after_first_match() {
    let (is_safe, matches) = scan("eval(os.system('x'))", &["eval", "exec", "os.system"]);
    assert!(!is_safe);
    assert_eq!(matches, strings(&["eval", "os.system"]));
}
