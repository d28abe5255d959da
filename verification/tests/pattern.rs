use schist::pattern::{Like, Glob, Regex};

#[test]
fn like_basic() {
    let p = Like::compile("a%z");
    assert!(p.matches("az"));
    assert!(p.matches("abcz"));
    assert!(!p.matches("abc"));
    let u = Like::compile("a_c");
    assert!(u.matches("abc"));
    assert!(!u.matches("ac"));
}

#[test]
fn like_escape() {
    let p = Like::compile(r"100\%");
    assert!(p.matches("100%"));
    assert!(!p.matches("100x"));
}

#[test]
fn like_collapses_percent() {
    let p = Like::compile("%%%abc%%%");
    assert!(p.matches("xxabcyy"));
    assert!(p.matches("abc"));
}

#[test]
fn glob_star_question_class() {
    assert!(Glob::compile("*.rs").matches("main.rs"));
    assert!(Glob::compile("file?.txt").matches("file1.txt"));
    assert!(Glob::compile("[a-c]at").matches("bat"));
    assert!(!Glob::compile("[a-c]at").matches("dat"));
    assert!(Glob::compile("[!0-9]x").matches("ax"));
}

#[test]
fn regex_literals_and_dot() {
    assert!(Regex::compile("a.c").is_match("abc"));
    assert!(Regex::compile("^abc$").is_match("abc"));
    assert!(!Regex::compile("^abc$").is_match("abcd"));
}

#[test]
fn regex_star() {
    assert!(Regex::compile("ab*c").is_match("ac"));
    assert!(Regex::compile("ab*c").is_match("abbbc"));
    assert!(Regex::compile("^a.*z$").is_match("abcz"));
    assert!(Regex::compile("[0-9]*").is_match("123"));
}

#[test]
fn regex_unanchored_search() {
    assert!(Regex::compile("cat").is_match("the cat sat"));
    assert!(!Regex::compile("dog").is_match("the cat sat"));
}
