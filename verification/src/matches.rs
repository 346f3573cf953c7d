//! The token model: the closed set of match-atom shapes and quantifier tags,
//! and the compiled token sequence.

use crate::check::reg_match;
use crate::check::reg_match_spec;
use crate::strings::find_char;
use crate::strings::first_char_index;
use crate::strings::lemma_first_char_index;
use crate::strings::trim_end_exec;
use crate::strings::trim_end_spec;
use vstd::prelude::*;

verus! {

/// The quantifier or anchor tag attached to every token. Exactly one tag
/// accompanies each token; it is fixed at compile time by the punctuation
/// adjacent to the atom (`^` prefix, trailing `$`, `+` or `?`).
#[derive(Clone, Copy, Debug, PartialEq)]
pub enum Varient {
    Start,
    End,
    Anywhere,
    Plus,
    Question,
}

/// A compiled match token: an atom together with its quantifier tag.
/// The borrowed text fields are views into the original pattern string.
#[derive(Debug, PartialEq)]
pub enum MatchType<'a> {
    Str(&'a str, Varient),
    Digit(Varient),
    Word(Varient),
    CharClass { members: &'a str, negated: bool, varient: Varient },
    Any,
    Alternation(&'a str, &'a str, Varient),
}

/// The mathematical model of a token: the same shape as [`MatchType`], with
/// every piece of borrowed text replaced by its sequence of characters.
#[verifier::ext_equal]
pub enum TokenView {
    Str(Seq<char>, Varient),
    Digit(Varient),
    Word(Varient),
    CharClass { members: Seq<char>, negated: bool, varient: Varient },
    Any,
    Alternation(Seq<char>, Seq<char>, Varient),
}

impl<'a> View for MatchType<'a> {
    type V = TokenView;

    open spec fn view(&self) -> TokenView {
        match self {
            MatchType::Str(p, v) => TokenView::Str(p@, *v),
            MatchType::Digit(v) => TokenView::Digit(*v),
            MatchType::Word(v) => TokenView::Word(*v),
            MatchType::CharClass { members, negated, varient } => TokenView::CharClass {
                members: members@,
                negated: *negated,
                varient: *varient,
            },
            MatchType::Any => TokenView::Any,
            MatchType::Alternation(a, b, v) => TokenView::Alternation(a@, b@, *v),
        }
    }
}

/// The ordered, immutable sequence of tokens compiled from one pattern.
#[derive(Debug)]
pub struct MatchQueue<'a>(pub Vec<MatchType<'a>>);

/// The model of a token sequence: the tokens' views, in order.
pub open spec fn views_of_tokens<'a>(ts: Seq<MatchType<'a>>) -> Seq<TokenView> {
    ts.map(|i: int, t: MatchType<'a>| t@)
}

impl<'a> View for MatchQueue<'a> {
    type V = Seq<TokenView>;

    open spec fn view(&self) -> Seq<TokenView> {
        views_of_tokens(self.0@)
    }
}

/// A character that elevates the quantifier of the atom before it.
pub open spec fn is_suffix_char(c: char) -> bool {
    c == '$' || c == '+' || c == '?'
}

/// The quantifier that a trailing `$`, `+` or `?` selects.
pub open spec fn suffix_varient(c: char) -> Varient {
    if c == '$' {
        Varient::End
    } else if c == '+' {
        Varient::Plus
    } else {
        Varient::Question
    }
}

/// One scanned escape sequence: `p` starts with a backslash. `\d` and `\w`
/// name the digit and word classes; any other escaped character is a
/// one-character literal. A `$`, `+` or `?` directly after the escape
/// elevates the quantifier and is consumed with it. A backslash that ends
/// the pattern degrades to a literal backslash.
pub open spec fn scan_escape(p: Seq<char>, v: Varient) -> (TokenView, Seq<char>)
    recommends
        p.len() >= 1,
        p[0] == '\\',
{
    if p.len() == 1 {
        (TokenView::Str(seq!['\\'], v), p.skip(1))
    } else {
        let c = p[1];
        let suffixed = p.len() >= 3 && is_suffix_char(p[2]);
        let v2 = if suffixed {
            suffix_varient(p[2])
        } else {
            v
        };
        let used: int = if suffixed {
            3
        } else {
            2
        };
        let tok = if c == 'd' {
            TokenView::Digit(v2)
        } else if c == 'w' {
            TokenView::Word(v2)
        } else {
            TokenView::Str(seq![c], v2)
        };
        (tok, p.skip(used))
    }
}

/// One scanned group: `p` starts with `(`. Text up to the first `)` is
/// split at its first `|` into the two branches of an alternation. A group
/// without a closing `)` or without a `|` is malformed and degrades to a
/// one-character literal `(`.
pub open spec fn scan_group(p: Seq<char>, v: Varient) -> (TokenView, Seq<char>)
    recommends
        p.len() >= 1,
        p[0] == '(',
{
    let s = p.skip(1);
    match first_char_index(s, ')') {
        Option::Some(j) => {
            let inner = s.take(j);
            match first_char_index(inner, '|') {
                Option::Some(k) => (
                    TokenView::Alternation(inner.take(k), inner.skip(k + 1), v),
                    s.skip(j + 1),
                ),
                Option::None => (TokenView::Str(seq!['('], v), s),
            }
        },
        Option::None => (TokenView::Str(seq!['('], v), s),
    }
}

/// One scanned character class: `p` starts with `[`. Interior text up to
/// the first `]` gives the members; a leading `^` inside negates the class
/// and is stripped. A `$`, `+` or `?` directly after the `]` elevates the
/// quantifier and is consumed with it. A class without a closing `]` is
/// malformed and degrades to a one-character literal `[`.
pub open spec fn scan_set(p: Seq<char>, v: Varient) -> (TokenView, Seq<char>)
    recommends
        p.len() >= 1,
        p[0] == '[',
{
    let s = p.skip(1);
    match first_char_index(s, ']') {
        Option::Some(j) => {
            let inner = s.take(j);
            let rest = s.skip(j + 1);
            let suffixed = rest.len() > 0 && is_suffix_char(rest[0]);
            let v2 = if suffixed {
                suffix_varient(rest[0])
            } else {
                v
            };
            let rest2 = if suffixed {
                rest.skip(1)
            } else {
                rest
            };
            if inner.len() > 0 && inner[0] == '^' {
                (TokenView::CharClass { members: inner.skip(1), negated: true, varient: v2 }, rest2)
            } else {
                (TokenView::CharClass { members: inner, negated: false, varient: v2 }, rest2)
            }
        },
        Option::None => (TokenView::Str(seq!['['], v), s),
    }
}

/// One scanned literal character. A `$`, `+` or `?` directly after it
/// elevates the quantifier for this one character and is consumed with it.
pub open spec fn scan_literal(p: Seq<char>, v: Varient) -> (TokenView, Seq<char>)
    recommends
        p.len() >= 1,
{
    if p.len() >= 2 && is_suffix_char(p[1]) {
        (TokenView::Str(seq![p[0]], suffix_varient(p[1])), p.skip(2))
    } else {
        (TokenView::Str(seq![p[0]], v), p.skip(1))
    }
}

/// One scanned token of `p`, under the quantifier candidate `v`, following
/// the disambiguation order: `.`, escape, group, class, literal.
pub open spec fn scan_token(p: Seq<char>, v: Varient) -> Option<(TokenView, Seq<char>)> {
    if p.len() == 0 {
        Option::None
    } else if p[0] == '.' {
        Option::Some((TokenView::Any, p.skip(1)))
    } else if p[0] == '\\' {
        Option::Some(scan_escape(p, v))
    } else if p[0] == '(' {
        Option::Some(scan_group(p, v))
    } else if p[0] == '[' {
        Option::Some(scan_set(p, v))
    } else {
        Option::Some(scan_literal(p, v))
    }
}

/// The next token of a pattern and the unconsumed remainder, or nothing
/// when the pattern is exhausted. A leading `^` sets the quantifier
/// candidate to `Start` and the remainder is scanned under the same rules.
pub open spec fn next_token_spec(p: Seq<char>) -> Option<(TokenView, Seq<char>)> {
    if p.len() > 0 && p[0] == '^' {
        scan_token(p.skip(1), Varient::Start)
    } else {
        scan_token(p, Varient::Anywhere)
    }
}

/// Every produced token consumes at least one pattern character.
pub proof fn lemma_next_token_consumes(p: Seq<char>)
    ensures
        match next_token_spec(p) {
            Option::Some((t, rest)) => rest.len() < p.len(),
            Option::None => true,
        },
{
    let anchored = p.len() > 0 && p[0] == '^';
    let q = if anchored {
        p.skip(1)
    } else {
        p
    };
    if q.len() > 0 {
        let s = q.skip(1);
        if q[0] == '(' {
            lemma_first_char_index(s, ')');
            match first_char_index(s, ')') {
                Option::Some(j) => {
                    lemma_first_char_index(s.take(j), '|');
                },
                Option::None => {},
            }
        } else if q[0] == '[' {
            lemma_first_char_index(s, ']');
        }
    }
}

/// The full compilation of a pattern: the token sequence obtained by
/// scanning tokens until the pattern is exhausted.
pub open spec fn compile_spec(p: Seq<char>) -> Seq<TokenView>
    decreases p.len(),
{
    match next_token_spec(p) {
        Option::None => Seq::empty(),
        Option::Some((t, rest)) => {
            proof {
                lemma_next_token_consumes(p);
            }
            seq![t] + compile_spec(rest)
        },
    }
}

fn suffix_char_exec(c: char) -> (r: bool)
    ensures
        r == is_suffix_char(c),
{
    c == '$' || c == '+' || c == '?'
}

fn suffix_varient_exec(c: char) -> (r: Varient)
    ensures
        r == suffix_varient(c),
{
    if c == '$' {
        Varient::End
    } else if c == '+' {
        Varient::Plus
    } else {
        Varient::Question
    }
}

/// Scans the next token of `pattern`, returning the token and the
/// unconsumed remainder of the pattern, or nothing once the pattern is
/// exhausted. Every pattern, however malformed, scans to some token.
#[verifier::rlimit(60)]
pub fn get_match_type<'a>(pattern: &'a str) -> (r: Option<(MatchType<'a>, Option<&'a str>)>)
    ensures
        match next_token_spec(pattern@) {
            Option::None => r is None,
            Option::Some((t, rest)) => match r {
                Option::Some((tok, orest)) => tok@ == t && match orest {
                    Option::Some(rs) => rs@ == rest,
                    Option::None => false,
                },
                Option::None => false,
            },
        },
{
    let n = pattern.unicode_len();
    if n == 0 {
        return Option::None;
    }
    let anchored = pattern.get_char(0) == '^';
    let body: &'a str = if anchored {
        pattern.substring_char(1, n)
    } else {
        pattern
    };
    let v = if anchored {
        Varient::Start
    } else {
        Varient::Anywhere
    };
    let nb = if anchored {
        n - 1
    } else {
        n
    };
    proof {
        if anchored {
            assert(body@ =~= pattern@.skip(1));
        }
        assert(next_token_spec(pattern@) == scan_token(body@, v));
    }
    let ghost q = body@;
    if nb == 0 {
        return Option::None;
    }
    let c0 = body.get_char(0);
    if c0 == '.' {
        let rest = body.substring_char(1, nb);
        return Option::Some((MatchType::Any, Option::Some(rest)));
    }
    if c0 == '\\' {
        if nb == 1 {
            let lit = body.substring_char(0, 1);
            let rest = body.substring_char(1, 1);
            proof {
                assert(lit@ =~= seq!['\\']);
            }
            return Option::Some((MatchType::Str(lit, v), Option::Some(rest)));
        }
        let c1 = body.get_char(1);
        let suffixed = nb >= 3 && suffix_char_exec(body.get_char(2));
        let v2 = if suffixed {
            suffix_varient_exec(body.get_char(2))
        } else {
            v
        };
        let used: usize = if suffixed {
            3
        } else {
            2
        };
        let rest = body.substring_char(used, nb);
        if c1 == 'd' {
            return Option::Some((MatchType::Digit(v2), Option::Some(rest)));
        }
        if c1 == 'w' {
            return Option::Some((MatchType::Word(v2), Option::Some(rest)));
        }
        let lit = body.substring_char(1, 2);
        proof {
            assert(lit@ =~= seq![q[1]]);
        }
        return Option::Some((MatchType::Str(lit, v2), Option::Some(rest)));
    }
    if c0 == '(' {
        match find_char(body, ')', 1) {
            Option::Some(j) => {
                let inner = body.substring_char(1, j);
                proof {
                    assert(inner@ =~= q.skip(1).take(j - 1));
                    assert(inner@.skip(0) =~= inner@);
                }
                match find_char(inner, '|', 0) {
                    Option::Some(k) => {
                        let a = inner.substring_char(0, k);
                        let b = inner.substring_char(k + 1, j - 1);
                        let rest = body.substring_char(j + 1, nb);
                        proof {
                            assert(a@ =~= inner@.take(k as int));
                            assert(b@ =~= inner@.skip(k + 1));
                            assert(rest@ =~= q.skip(1).skip(j - 1 + 1));
                        }
                        return Option::Some(
                            (MatchType::Alternation(a, b, v), Option::Some(rest)),
                        );
                    },
                    Option::None => {
                        let lit = body.substring_char(0, 1);
                        let rest = body.substring_char(1, nb);
                        proof {
                            assert(lit@ =~= seq!['(']);
                            assert(rest@ =~= q.skip(1));
                        }
                        return Option::Some((MatchType::Str(lit, v), Option::Some(rest)));
                    },
                }
            },
            Option::None => {
                let lit = body.substring_char(0, 1);
                let rest = body.substring_char(1, nb);
                proof {
                    assert(lit@ =~= seq!['(']);
                    assert(rest@ =~= q.skip(1));
                }
                return Option::Some((MatchType::Str(lit, v), Option::Some(rest)));
            },
        }
    }
    if c0 == '[' {
        match find_char(body, ']', 1) {
            Option::Some(j) => {
                proof {
                    assert(q.skip(1).skip(j - 1 + 1) =~= q.skip(j + 1));
                    assert(q.skip(1).take(j - 1) =~= q.subrange(1, j as int));
                }
                let suffixed = j + 1 < nb && suffix_char_exec(body.get_char(j + 1));
                let v2 = if suffixed {
                    suffix_varient_exec(body.get_char(j + 1))
                } else {
                    v
                };
                let rest_start = if suffixed {
                    j + 2
                } else {
                    j + 1
                };
                let rest = body.substring_char(rest_start, nb);
                proof {
                    if suffixed {
                        assert(rest@ =~= q.skip(j + 1).skip(1));
                    } else {
                        assert(rest@ =~= q.skip(j + 1));
                    }
                }
                if j > 1 && body.get_char(1) == '^' {
                    let members = body.substring_char(2, j);
                    proof {
                        assert(members@ =~= q.subrange(1, j as int).skip(1));
                    }
                    return Option::Some(
                        (
                            MatchType::CharClass { members, negated: true, varient: v2 },
                            Option::Some(rest),
                        ),
                    );
                }
                let members = body.substring_char(1, j);
                proof {
                    assert(members@ =~= q.subrange(1, j as int));
                }
                return Option::Some(
                    (
                        MatchType::CharClass { members, negated: false, varient: v2 },
                        Option::Some(rest),
                    ),
                );
            },
            Option::None => {
                let lit = body.substring_char(0, 1);
                let rest = body.substring_char(1, nb);
                proof {
                    assert(lit@ =~= seq!['[']);
                    assert(rest@ =~= q.skip(1));
                }
                return Option::Some((MatchType::Str(lit, v), Option::Some(rest)));
            },
        }
    }
    let lit = body.substring_char(0, 1);
    proof {
        assert(lit@ =~= seq![q[0]]);
    }
    let suffixed = nb >= 2 && suffix_char_exec(body.get_char(1));
    if suffixed {
        let v2 = suffix_varient_exec(body.get_char(1));
        let rest = body.substring_char(2, nb);
        return Option::Some((MatchType::Str(lit, v2), Option::Some(rest)));
    }
    let rest = body.substring_char(1, nb);
    return Option::Some((MatchType::Str(lit, v), Option::Some(rest)));
}

/// The verdict of running a token sequence over input `s`, one token at a
/// time, left to right. Each token consumes part of the input; should the
/// input run out, the run succeeds only if the token that exhausted it
/// matched and was the last.
pub open spec fn run_tokens(ts: Seq<TokenView>, s: Seq<char>) -> bool
    decreases ts.len(),
{
    if ts.len() == 0 {
        true
    } else {
        let (m, rest) = reg_match_spec(ts[0], s);
        let rs = match rest {
            Option::Some(r) => r,
            Option::None => Seq::empty(),
        };
        if rs.len() == 0 {
            m && ts.len() == 1
        } else {
            m && run_tokens(ts.skip(1), rs)
        }
    }
}

/// The verdict of checking a line against a token sequence: the line's
/// trailing whitespace is trimmed once, then the tokens run over it.
pub open spec fn check_spec(ts: Seq<TokenView>, line: Seq<char>) -> bool {
    run_tokens(ts, trim_end_spec(line))
}

fn empty_str() -> (r: &'static str)
    ensures
        r@ == Seq::<char>::empty(),
{
    let r = "";
    proof {
        reveal_strlit("");
        assert(r@ =~= Seq::<char>::empty());
    }
    r
}

impl<'a> MatchQueue<'a> {
    /// Decides whether a line matches the compiled pattern.
    pub fn check(&self, input: &'a str) -> (res: bool)
        ensures
            res == check_spec(self@, input@),
    {
        let mut i: &str = trim_end_exec(input);
        let n = self.0.len();
        proof {
            assert(self@.skip(0) =~= self@);
        }
        let mut k: usize = 0;
        while k < n
            invariant
                k <= n,
                n == self.0.len(),
                n == self@.len(),
                run_tokens(self@.skip(k as int), i@) == check_spec(self@, input@),
            decreases n - k,
        {
            let (m, rest_input) = reg_match(&self.0[k], i);
            let rest: &str = match rest_input {
                Option::Some(r) => r,
                Option::None => empty_str(),
            };
            if rest.unicode_len() == 0 {
                return m && k + 1 == n;
            }
            if !m {
                return false;
            }
            proof {
                assert(self@.skip(k as int).skip(1) =~= self@.skip(k as int + 1));
            }
            k += 1;
            i = rest;
        }
        true
    }

    /// Compiles a pattern into its ordered token sequence by scanning
    /// tokens until the pattern is exhausted.
    pub fn from(pattern: &'a str) -> (q: Self)
        ensures
            q@ == compile_spec(pattern@),
    {
        let mut p: &'a str = pattern;
        let mut match_queue: Vec<MatchType<'a>> = Vec::new();
        loop
            invariant
                compile_spec(pattern@) == views_of_tokens(match_queue@) + compile_spec(p@),
            decreases p@.len(),
        {
            match get_match_type(p) {
                Option::Some((m, p_rest)) => {
                    proof {
                        lemma_next_token_consumes(p@);
                    }
                    let ghost mq0 = match_queue@;
                    let ghost p0 = p@;
                    match_queue.push(m);
                    let r = match p_rest {
                        Option::Some(r) => r,
                        Option::None => unreached(),
                    };
                    p = r;
                    proof {
                        assert(views_of_tokens(mq0.push(m)) =~= views_of_tokens(mq0) + seq![m@]);
                        assert(compile_spec(p0) == seq![m@] + compile_spec(p@));
                        assert((views_of_tokens(mq0) + seq![m@]) + compile_spec(p@)
                            =~= views_of_tokens(mq0) + (seq![m@] + compile_spec(p@)));
                    }
                },
                Option::None => {
                    proof {
                        assert(compile_spec(p@) == Seq::<TokenView>::empty());
                        assert(views_of_tokens(match_queue@) + Seq::<TokenView>::empty()
                            =~= views_of_tokens(match_queue@));
                    }
                    return MatchQueue(match_queue);
                },
            }
        }
    }
}

} // verus!
