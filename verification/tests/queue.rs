//! End-to-end tests: compiling whole patterns and checking lines.

use linematch::matches::{MatchQueue, MatchType, Varient};

#[test]
fn plain_substring_pattern_passes() {
    assert!(MatchQueue::from("cat").check("the cat sat"));
    assert!(MatchQueue::from("urr").check("purring"));
    assert!(!MatchQueue::from("cat").check("the dog sat"));
}

#[test]
fn compile_is_idempotent() {
    let pattern = r"^a[bc]\d+(x|y)z$";
    let first = MatchQueue::from(pattern);
    let second = MatchQueue::from(pattern);
    assert_eq!(first.0, second.0);
}

#[test]
fn compound_pattern_compiles_one_token_per_atom() {
    let queue = MatchQueue::from(r"^log.*\d+$");
    assert_eq!(
        queue.0,
        vec![
            MatchType::Str("l", Varient::Start),
            MatchType::Str("o", Varient::Anywhere),
            MatchType::Str("g", Varient::Anywhere),
            MatchType::Any,
            MatchType::Str("*", Varient::Anywhere),
            MatchType::Digit(Varient::Plus),
            MatchType::Str("$", Varient::Anywhere),
        ]
    );
}

#[test]
fn empty_pattern_accepts_every_line() {
    let queue = MatchQueue::from("");
    assert!(queue.0.is_empty());
    assert!(queue.check("anything"));
    assert!(queue.check(""));
}

#[test]
fn lone_caret_compiles_to_nothing() {
    let queue = MatchQueue::from("^");
    assert!(queue.0.is_empty());
    assert!(queue.check("anything"));
}

#[test]
fn empty_line_fails_nonempty_pattern() {
    assert!(!MatchQueue::from("a").check(""));
}

#[test]
fn trailing_whitespace_is_trimmed_once() {
    assert!(MatchQueue::from("x$").check(" x \n"));
    assert!(!MatchQueue::from("x$").check(" x y\n"));
}

#[test]
fn input_exhausted_before_last_token_fails() {
    assert!(!MatchQueue::from("aa").check("xa"));
}

#[test]
fn input_exhausted_at_last_token_passes() {
    assert!(MatchQueue::from("ab").check("xab"));
}

#[test]
fn anchored_pattern_checks_the_front() {
    assert!(MatchQueue::from("^dog").check("dog house"));
    assert!(!MatchQueue::from("^dog").check("a dog house"));
}

#[test]
fn digit_class_in_a_pattern() {
    assert!(MatchQueue::from(r"a\db").check("xa a1b y"));
    assert!(!MatchQueue::from(r"a\db").check("xa ab y"));
}

#[test]
fn alternation_in_a_pattern() {
    assert!(MatchQueue::from("(cat|dog) barks").check("the dog barks"));
    assert!(!MatchQueue::from("(cat|dog) barks").check("the bird barks"));
}
