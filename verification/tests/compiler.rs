//! Tests for scanning single tokens out of a pattern string.

use linematch::matches::{get_match_type, MatchType, Varient};

#[test]
fn empty() {
    let res = get_match_type("");
    assert_eq!(res, None);
}

#[test]
fn digit_match_type() {
    let res = get_match_type(r"\d").unwrap();
    assert_eq!(res.0, MatchType::Digit(Varient::Anywhere));
}

#[test]
fn word_match_type() {
    let res = get_match_type(r"\wabc").unwrap();
    assert_eq!(res.0, MatchType::Word(Varient::Anywhere));
    assert_eq!(res.1, Some("abc"));
}

#[test]
fn backtick() {
    let res = get_match_type(r"\[").unwrap();
    assert_eq!(res.0, MatchType::Str("[", Varient::Anywhere));
    assert_eq!(res.1, Some(""));
}

#[test]
fn set() {
    let res = get_match_type(r"[abc]\d").unwrap();
    assert_eq!(
        res.0,
        MatchType::CharClass {
            members: "abc",
            negated: false,
            varient: Varient::Anywhere
        }
    );
    assert_eq!(res.1, Some(r"\d"));
}

#[test]
fn negated_set() {
    let res = get_match_type(r"[^abc]\d").unwrap();
    assert_eq!(
        res.0,
        MatchType::CharClass {
            members: "abc",
            negated: true,
            varient: Varient::Anywhere
        }
    );
    assert_eq!(res.1, Some(r"\d"));
}

#[test]
fn empty_set() {
    let res = get_match_type(r"[abe").unwrap();
    assert_eq!(res.0, MatchType::Str("[", Varient::Anywhere));
    assert_eq!(res.1, Some("abe"));
}

#[test]
fn varient() {
    let res = get_match_type(r"^abc").unwrap();
    assert_eq!(res.0, MatchType::Str("a", Varient::Start));
    assert_eq!(res.1, Some("bc"));
}

#[test]
fn varient_end() {
    let res = get_match_type(r"a$").unwrap();
    assert_eq!(res.0, MatchType::Str("a", Varient::End));
    assert_eq!(res.1, Some(""));
}

#[test]
fn varient_end_digit() {
    let res = get_match_type(r"\d$").unwrap();
    assert_eq!(res.0, MatchType::Digit(Varient::End));
}

#[test]
fn varient_end_set() {
    let res = get_match_type(r"[abc]$").unwrap();
    assert_eq!(
        res.0,
        MatchType::CharClass {
            members: "abc",
            negated: false,
            varient: Varient::End
        }
    )
}

#[test]
fn string_it() {
    let res = get_match_type(r"abc\d").unwrap();
    assert_eq!(res.0, MatchType::Str("a", Varient::Anywhere));
    assert_eq!(res.1, Some(r"bc\d"));
}

#[test]
fn tricky() {
    let res = get_match_type(r"^\dabc").unwrap();
    assert_eq!(res.0, MatchType::Digit(Varient::Start));
    assert_eq!(res.1, Some("abc"))
}

#[test]
fn extra_tricky() {
    let (m, r) = get_match_type(r"^abc\d[^abc]").unwrap();
    assert_eq!(m, MatchType::Str("a", Varient::Start));
    assert_eq!(r, Some(r"bc\d[^abc]"));

    let (m, r) = get_match_type(r.unwrap()).unwrap();
    assert_eq!(m, MatchType::Str("b", Varient::Anywhere));
    assert_eq!(r, Some(r"c\d[^abc]"));

    let (m, r) = get_match_type(r.unwrap()).unwrap();
    assert_eq!(m, MatchType::Str("c", Varient::Anywhere));
    assert_eq!(r, Some(r"\d[^abc]"));

    let (m, r) = get_match_type(r.unwrap()).unwrap();
    assert_eq!(m, MatchType::Digit(Varient::Anywhere));
    assert_eq!(r, Some("[^abc]"));

    let (m, r) = get_match_type(r.unwrap()).unwrap();
    assert_eq!(
        m,
        MatchType::CharClass {
            members: "abc",
            negated: true,
            varient: Varient::Anywhere
        }
    );
    assert_eq!(r, Some(""));

    let res = get_match_type(r.unwrap());
    assert_eq!(res, None);
}

#[test]
fn escape_other_char_is_literal() {
    let res = get_match_type(r"\+x").unwrap();
    assert_eq!(res.0, MatchType::Str("+", Varient::Anywhere));
    assert_eq!(res.1, Some("x"));
}

#[test]
fn escape_with_suffix_consumes_it() {
    let res = get_match_type(r"\d+rest").unwrap();
    assert_eq!(res.0, MatchType::Digit(Varient::Plus));
    assert_eq!(res.1, Some("rest"));
}

#[test]
fn lone_backslash_is_a_literal() {
    let res = get_match_type("\\").unwrap();
    assert_eq!(res.0, MatchType::Str("\\", Varient::Anywhere));
    assert_eq!(res.1, Some(""));
}

#[test]
fn alternation_token() {
    let res = get_match_type("(cat|dog)x").unwrap();
    assert_eq!(res.0, MatchType::Alternation("cat", "dog", Varient::Anywhere));
    assert_eq!(res.1, Some("x"));
}

#[test]
fn group_without_pipe_degrades() {
    let res = get_match_type("(ab)c").unwrap();
    assert_eq!(res.0, MatchType::Str("(", Varient::Anywhere));
    assert_eq!(res.1, Some("ab)c"));
}

#[test]
fn group_without_close_degrades() {
    let res = get_match_type("(ab").unwrap();
    assert_eq!(res.0, MatchType::Str("(", Varient::Anywhere));
    assert_eq!(res.1, Some("ab"));
}

#[test]
fn set_suffix_elevates_and_is_consumed() {
    let res = get_match_type("[abc]+x").unwrap();
    assert_eq!(
        res.0,
        MatchType::CharClass {
            members: "abc",
            negated: false,
            varient: Varient::Plus
        }
    );
    assert_eq!(res.1, Some("x"));
}

#[test]
fn dot_token() {
    let res = get_match_type(".ab").unwrap();
    assert_eq!(res.0, MatchType::Any);
    assert_eq!(res.1, Some("ab"));
}

#[test]
fn literal_question_suffix() {
    let res = get_match_type("a?b").unwrap();
    assert_eq!(res.0, MatchType::Str("a", Varient::Question));
    assert_eq!(res.1, Some("b"));
}
