//! The matcher: one case per token shape, deciding whether the token
//! matches the remaining input and how much input it consumes.

use crate::matches::MatchType;
use crate::matches::TokenView;
use crate::matches::Varient;
use crate::strings::class_run_end;
use crate::strings::class_run_end_exec;
use crate::strings::class_sat;
use crate::strings::class_sat_exec;
use crate::strings::contains_at;
use crate::strings::contains_char;
use crate::strings::find_class;
use crate::strings::find_sub;
use crate::strings::first_class_index;
use crate::strings::first_occurrence;
use crate::strings::has_prefix;
use crate::strings::has_suffix;
use crate::strings::lemma_class_run_end;
use crate::strings::lemma_first_class_index;
use crate::strings::lemma_first_occurrence;
use crate::strings::lemma_lit_run_end;
use crate::strings::lit_run_end;
use crate::strings::lit_run_end_exec;
use vstd::prelude::*;

verus! {

/// What one digit- or word-class token yields on input `s`: whether it
/// matches and the input left after it. The class is the word class when
/// `word` holds, else the digit class.
pub open spec fn class_match_spec(word: bool, v: Varient, s: Seq<char>) -> (bool, Option<
    Seq<char>,
>) {
    match v {
        Varient::Start => if s.len() > 0 && class_sat(s[0], word) {
            (true, Option::Some(s.skip(1)))
        } else {
            (false, Option::None)
        },
        Varient::Anywhere => match first_class_index(s, word) {
            Option::Some(i) => (true, Option::Some(s.skip(i + 1))),
            Option::None => (false, Option::None),
        },
        Varient::End => if s.len() > 0 && class_sat(s[s.len() - 1], word) {
            (true, Option::Some(s.take(s.len() - 1)))
        } else {
            (false, Option::None)
        },
        Varient::Plus => match first_class_index(s, word) {
            Option::Some(i) => (true, Option::Some(s.skip(class_run_end(s, word, i)))),
            Option::None => (false, Option::None),
        },
        Varient::Question => (false, Option::None),
    }
}

/// What one literal token yields on input `s`.
pub open spec fn str_match_spec(p: Seq<char>, v: Varient, s: Seq<char>) -> (bool, Option<
    Seq<char>,
>) {
    match v {
        Varient::Start => if contains_at(s, p, 0) {
            (true, Option::Some(s.skip(p.len() as int)))
        } else {
            (false, Option::None)
        },
        Varient::Anywhere => match first_occurrence(s, p) {
            Option::Some(i) => (true, Option::Some(s.skip(i + p.len()))),
            Option::None => (false, Option::None),
        },
        Varient::End => if p.len() <= s.len() && s.skip(s.len() - p.len()) == p {
            (true, Option::None)
        } else {
            (false, Option::None)
        },
        Varient::Plus => match first_occurrence(s, p) {
            Option::Some(i) => (true, Option::Some(s.skip(lit_run_end(s, p, i)))),
            Option::None => (false, Option::None),
        },
        Varient::Question => match first_occurrence(s, p) {
            Option::Some(i) => (true, Option::Some(s.skip(lit_run_end(s, p, i)))),
            Option::None => (true, Option::Some(s)),
        },
    }
}

/// Some member of the class occurs somewhere in `s`.
pub open spec fn some_member_occurs(members: Seq<char>, s: Seq<char>) -> bool {
    exists|k: int| 0 <= k < members.len() && s.contains(members[k])
}

/// What one character-class token yields on input `s`.
pub open spec fn set_match_spec(members: Seq<char>, negated: bool, v: Varient, s: Seq<char>) -> (
    bool,
    Option<Seq<char>>,
) {
    match v {
        Varient::Start => if s.len() == 0 {
            (false, Option::None)
        } else {
            let is_member = members.contains(s[0]);
            if is_member != negated {
                (true, Option::Some(s.skip(1)))
            } else {
                (false, Option::None)
            }
        },
        Varient::Anywhere => if negated {
            if !some_member_occurs(members, s) {
                (
                    true,
                    Option::Some(
                        if s.len() > 0 {
                            s.skip(1)
                        } else {
                            s
                        },
                    ),
                )
            } else {
                (false, Option::None)
            }
        } else {
            if some_member_occurs(members, s) {
                (true, Option::Some(s.skip(1)))
            } else {
                (false, Option::None)
            }
        },
        _ => (false, Option::None),
    }
}

/// What one alternation token yields on input `s`: branch `a` is tried
/// before branch `b`.
pub open spec fn alt_match_spec(a: Seq<char>, b: Seq<char>, v: Varient, s: Seq<char>) -> (
    bool,
    Option<Seq<char>>,
) {
    match v {
        Varient::Start => if contains_at(s, a, 0) {
            (true, Option::Some(s.skip(a.len() as int)))
        } else if contains_at(s, b, 0) {
            (true, Option::Some(s.skip(b.len() as int)))
        } else {
            (false, Option::None)
        },
        Varient::Anywhere => match first_occurrence(s, a) {
            Option::Some(i) => (true, Option::Some(s.skip(i + a.len()))),
            Option::None => match first_occurrence(s, b) {
                Option::Some(i) => (true, Option::Some(s.skip(i + b.len()))),
                Option::None => (false, Option::None),
            },
        },
        _ => (false, Option::None),
    }
}

/// What one token yields on input `s`: whether it matches, and the
/// remaining input after it, present on success for every token shape
/// except an end-anchored literal, which is terminal. A token-quantifier
/// pairing outside the supported table never matches.
pub open spec fn reg_match_spec(t: TokenView, s: Seq<char>) -> (bool, Option<Seq<char>>) {
    match t {
        TokenView::Str(p, v) => str_match_spec(p, v, s),
        TokenView::Digit(v) => class_match_spec(false, v, s),
        TokenView::Word(v) => class_match_spec(true, v, s),
        TokenView::CharClass { members, negated, varient } => set_match_spec(
            members,
            negated,
            varient,
            s,
        ),
        TokenView::Any => if s.len() > 0 {
            (true, Option::Some(s.skip(1)))
        } else {
            (false, Option::None)
        },
        TokenView::Alternation(a, b, v) => alt_match_spec(a, b, v, s),
    }
}

/// The sequence of characters a returned remainder stands for.
pub open spec fn remainder_view(o: Option<&str>) -> Option<Seq<char>> {
    match o {
        Option::Some(s) => Option::Some(s@),
        Option::None => Option::None,
    }
}

/// Whether some member of `members` occurs somewhere in `s`.
fn some_member_occurs_exec(members: &str, s: &str) -> (r: bool)
    ensures
        r == some_member_occurs(members@, s@),
{
    let m = members.unicode_len();
    let mut k: usize = 0;
    while k < m
        invariant
            k <= m,
            m == members@.len(),
            forall|t: int| 0 <= t < k ==> !s@.contains(members@[t]),
        decreases m - k,
    {
        if contains_char(s, members.get_char(k)) {
            return true;
        }
        k += 1;
    }
    false
}

/// One digit- or word-class token applied to `input_line`.
fn class_match<'a>(word: bool, v: &Varient, input_line: &'a str) -> (r: (bool, Option<&'a str>))
    ensures
        (r.0, remainder_view(r.1)) == class_match_spec(word, *v, input_line@),
{
    let n = input_line.unicode_len();
    match v {
        Varient::Start => {
            if n > 0 && class_sat_exec(input_line.get_char(0), word) {
                (true, Option::Some(input_line.substring_char(1, n)))
            } else {
                (false, Option::None)
            }
        },
        Varient::Anywhere => {
            match find_class(input_line, word) {
                Option::Some(i) => {
                    proof {
                        lemma_first_class_index(input_line@, word);
                    }
                    (true, Option::Some(input_line.substring_char(i + 1, n)))
                },
                Option::None => (false, Option::None),
            }
        },
        Varient::End => {
            if n > 0 && class_sat_exec(input_line.get_char(n - 1), word) {
                (true, Option::Some(input_line.substring_char(0, n - 1)))
            } else {
                (false, Option::None)
            }
        },
        Varient::Plus => {
            match find_class(input_line, word) {
                Option::Some(i) => {
                    proof {
                        lemma_first_class_index(input_line@, word);
                    }
                    let end = class_run_end_exec(input_line, word, i);
                    proof {
                        lemma_class_run_end(input_line@, word, i as int);
                    }
                    (true, Option::Some(input_line.substring_char(end, n)))
                },
                Option::None => (false, Option::None),
            }
        },
        Varient::Question => (false, Option::None),
    }
}

/// One literal token applied to `input_line`.
fn str_match<'a>(p: &str, v: &Varient, input_line: &'a str) -> (r: (bool, Option<&'a str>))
    ensures
        (r.0, remainder_view(r.1)) == str_match_spec(p@, *v, input_line@),
{
    let n = input_line.unicode_len();
    match v {
        Varient::Start => {
            if has_prefix(input_line, p) {
                let plen = p.unicode_len();
                (true, Option::Some(input_line.substring_char(plen, n)))
            } else {
                (false, Option::None)
            }
        },
        Varient::Anywhere => {
            match find_sub(input_line, p) {
                Option::Some(i) => {
                    proof {
                        lemma_first_occurrence(input_line@, p@);
                    }
                    let plen = p.unicode_len();
                    (true, Option::Some(input_line.substring_char(i + plen, n)))
                },
                Option::None => (false, Option::None),
            }
        },
        Varient::End => {
            if has_suffix(input_line, p) {
                (true, Option::None)
            } else {
                (false, Option::None)
            }
        },
        Varient::Plus => {
            match find_sub(input_line, p) {
                Option::Some(i) => {
                    proof {
                        lemma_first_occurrence(input_line@, p@);
                    }
                    let plen = p.unicode_len();
                    let end = if plen == 0 {
                        i
                    } else {
                        lit_run_end_exec(input_line, p, i)
                    };
                    proof {
                        lemma_lit_run_end(input_line@, p@, i as int);
                    }
                    (true, Option::Some(input_line.substring_char(end, n)))
                },
                Option::None => (false, Option::None),
            }
        },
        Varient::Question => {
            match find_sub(input_line, p) {
                Option::Some(i) => {
                    proof {
                        lemma_first_occurrence(input_line@, p@);
                    }
                    let plen = p.unicode_len();
                    let end = if plen == 0 {
                        i
                    } else {
                        lit_run_end_exec(input_line, p, i)
                    };
                    proof {
                        lemma_lit_run_end(input_line@, p@, i as int);
                    }
                    (true, Option::Some(input_line.substring_char(end, n)))
                },
                Option::None => (true, Option::Some(input_line)),
            }
        },
    }
}

/// One character-class token applied to `input_line`.
fn set_match<'a>(members: &str, negated: bool, v: &Varient, input_line: &'a str) -> (r: (
    bool,
    Option<&'a str>,
))
    ensures
        (r.0, remainder_view(r.1)) == set_match_spec(members@, negated, *v, input_line@),
{
    let n = input_line.unicode_len();
    match v {
        Varient::Start => {
            if n == 0 {
                return (false, Option::None);
            }
            let is_member = contains_char(members, input_line.get_char(0));
            if is_member != negated {
                (true, Option::Some(input_line.substring_char(1, n)))
            } else {
                (false, Option::None)
            }
        },
        Varient::Anywhere => {
            let found = some_member_occurs_exec(members, input_line);
            if negated {
                if !found {
                    if n > 0 {
                        (true, Option::Some(input_line.substring_char(1, n)))
                    } else {
                        (true, Option::Some(input_line))
                    }
                } else {
                    (false, Option::None)
                }
            } else {
                if found {
                    proof {
                        assert(input_line@.len() > 0);
                    }
                    (true, Option::Some(input_line.substring_char(1, n)))
                } else {
                    (false, Option::None)
                }
            }
        },
        Varient::End => (false, Option::None),
        Varient::Plus => (false, Option::None),
        Varient::Question => (false, Option::None),
    }
}

/// One alternation token applied to `input_line`.
fn alt_match<'a>(a: &str, b: &str, v: &Varient, input_line: &'a str) -> (r: (bool, Option<&'a str>))
    ensures
        (r.0, remainder_view(r.1)) == alt_match_spec(a@, b@, *v, input_line@),
{
    let n = input_line.unicode_len();
    match v {
        Varient::Start => {
            if has_prefix(input_line, a) {
                let alen = a.unicode_len();
                return (true, Option::Some(input_line.substring_char(alen, n)));
            }
            if has_prefix(input_line, b) {
                let blen = b.unicode_len();
                return (true, Option::Some(input_line.substring_char(blen, n)));
            }
            (false, Option::None)
        },
        Varient::Anywhere => {
            match find_sub(input_line, a) {
                Option::Some(i) => {
                    proof {
                        lemma_first_occurrence(input_line@, a@);
                    }
                    let alen = a.unicode_len();
                    return (true, Option::Some(input_line.substring_char(i + alen, n)));
                },
                Option::None => {},
            }
            match find_sub(input_line, b) {
                Option::Some(i) => {
                    proof {
                        lemma_first_occurrence(input_line@, b@);
                    }
                    let blen = b.unicode_len();
                    (true, Option::Some(input_line.substring_char(i + blen, n)))
                },
                Option::None => (false, Option::None),
            }
        },
        Varient::End => (false, Option::None),
        Varient::Plus => (false, Option::None),
        Varient::Question => (false, Option::None),
    }
}

/// Applies one token to the input, returning whether it matched and the
/// input left over for the tokens after it; no remainder means the input
/// is used up.
pub fn reg_match<'a>(pattern: &MatchType<'_>, input_line: &'a str) -> (r: (bool, Option<&'a str>))
    ensures
        (r.0, remainder_view(r.1)) == reg_match_spec(pattern@, input_line@),
{
    match pattern {
        MatchType::Str(p, v) => str_match(p, v, input_line),
        MatchType::Digit(v) => class_match(false, v, input_line),
        MatchType::Word(v) => class_match(true, v, input_line),
        MatchType::CharClass { members, negated, varient } => set_match(
            members,
            *negated,
            varient,
            input_line,
        ),
        MatchType::Any => {
            let n = input_line.unicode_len();
            if n > 0 {
                (true, Option::Some(input_line.substring_char(1, n)))
            } else {
                (false, Option::None)
            }
        },
        MatchType::Alternation(a, b, v) => alt_match(a, b, v, input_line),
    }
}

} // verus!
