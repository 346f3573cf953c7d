//! Tests for applying single tokens to input text.

use linematch::check::reg_match;
use linematch::matches::{MatchType, Varient};

#[test]
fn digit_anywhere_finds_first_digit() {
    let r = reg_match(&MatchType::Digit(Varient::Anywhere), "a1b");
    assert_eq!(r, (true, Some("b")));
}

#[test]
fn digit_anywhere_fails_without_digit() {
    let r = reg_match(&MatchType::Digit(Varient::Anywhere), "abc");
    assert_eq!(r, (false, None));
}

#[test]
fn digit_start_and_end() {
    assert_eq!(
        reg_match(&MatchType::Digit(Varient::Start), "1ab"),
        (true, Some("ab"))
    );
    assert_eq!(
        reg_match(&MatchType::Digit(Varient::Start), "a1b"),
        (false, None)
    );
    assert_eq!(
        reg_match(&MatchType::Digit(Varient::End), "ab1"),
        (true, Some("ab"))
    );
    assert_eq!(
        reg_match(&MatchType::Digit(Varient::End), "a1b"),
        (false, None)
    );
}

#[test]
fn digit_start_on_empty_input_fails() {
    assert_eq!(reg_match(&MatchType::Digit(Varient::Start), ""), (false, None));
    assert_eq!(reg_match(&MatchType::Digit(Varient::End), ""), (false, None));
}

#[test]
fn word_anywhere_distinguishes_characters() {
    let r = reg_match(&MatchType::Word(Varient::Anywhere), "!!!a??");
    assert_eq!(r, (true, Some("??")));
    let r = reg_match(&MatchType::Word(Varient::Anywhere), "!!! ");
    assert_eq!(r, (false, None));
}

#[test]
fn word_plus_consumes_the_run() {
    let r = reg_match(&MatchType::Word(Varient::Plus), "  ab12  x");
    assert_eq!(r, (true, Some("  x")));
}

#[test]
fn class_matches_member_somewhere() {
    let token = MatchType::CharClass {
        members: "abc",
        negated: false,
        varient: Varient::Anywhere,
    };
    assert_eq!(reg_match(&token, "xbz"), (true, Some("bz")));
    assert_eq!(reg_match(&token, "xyz"), (false, None));
}

#[test]
fn negated_class_rejects_member_anywhere() {
    let token = MatchType::CharClass {
        members: "abc",
        negated: true,
        varient: Varient::Anywhere,
    };
    assert_eq!(reg_match(&token, "xbz"), (false, None));
    assert_eq!(reg_match(&token, "xyz"), (true, Some("yz")));
}

#[test]
fn class_start_checks_first_character() {
    let token = MatchType::CharClass {
        members: "abc",
        negated: false,
        varient: Varient::Start,
    };
    assert_eq!(reg_match(&token, "cab"), (true, Some("ab")));
    assert_eq!(reg_match(&token, "xab"), (false, None));
    let negated = MatchType::CharClass {
        members: "abc",
        negated: true,
        varient: Varient::Start,
    };
    assert_eq!(reg_match(&negated, "xab"), (true, Some("ab")));
    assert_eq!(reg_match(&negated, "cab"), (false, None));
}

#[test]
fn class_end_is_outside_the_table() {
    let token = MatchType::CharClass {
        members: "abc",
        negated: false,
        varient: Varient::End,
    };
    assert_eq!(reg_match(&token, "cab"), (false, None));
}

#[test]
fn literal_plus_matches_runs() {
    let token = MatchType::Str("ca", Varient::Plus);
    assert_eq!(reg_match(&token, "cat"), (true, Some("t")));
    assert_eq!(reg_match(&token, "cacat"), (true, Some("t")));
    assert_eq!(reg_match(&token, "dog"), (false, None));
}

#[test]
fn literal_start_consumes_its_length() {
    let token = MatchType::Str("ca", Varient::Start);
    assert_eq!(reg_match(&token, "cat"), (true, Some("t")));
    assert_eq!(reg_match(&token, "act"), (false, None));
}

#[test]
fn literal_anywhere_consumes_past_first_occurrence() {
    let token = MatchType::Str("a", Varient::Anywhere);
    assert_eq!(reg_match(&token, "xaya"), (true, Some("ya")));
}

#[test]
fn literal_end_is_a_suffix_check() {
    let token = MatchType::Str("g", Varient::End);
    assert_eq!(reg_match(&token, "dog"), (true, None));
    assert_eq!(reg_match(&token, "dig it"), (false, None));
}

#[test]
fn literal_question_is_optional() {
    let token = MatchType::Str("a", Varient::Question);
    assert_eq!(reg_match(&token, "bcd"), (true, Some("bcd")));
    assert_eq!(reg_match(&token, "xxab"), (true, Some("b")));
}

#[test]
fn alternation_start_tries_both_branches() {
    let token = MatchType::Alternation("cat", "dog", Varient::Start);
    assert_eq!(reg_match(&token, "cat sat"), (true, Some(" sat")));
    assert_eq!(reg_match(&token, "dog ran"), (true, Some(" ran")));
    assert_eq!(reg_match(&token, "bird flew"), (false, None));
}

#[test]
fn alternation_anywhere_prefers_first_branch() {
    let token = MatchType::Alternation("do", "og", Varient::Anywhere);
    assert_eq!(reg_match(&token, "the dog barks"), (true, Some("g barks")));
    assert_eq!(reg_match(&token, "the fog barks"), (true, Some(" barks")));
    assert_eq!(reg_match(&token, "the cat barks"), (false, None));
}

#[test]
fn any_needs_one_character() {
    assert_eq!(reg_match(&MatchType::Any, "xy"), (true, Some("y")));
    assert_eq!(reg_match(&MatchType::Any, ""), (false, None));
}
