//! Properties of the compiler and matcher taken together, stated and
//! proved over the same spec functions that the executable contracts use.

use crate::check::reg_match_spec;
use crate::check::str_match_spec;
use crate::matches::check_spec;
use crate::matches::compile_spec;
use crate::matches::is_suffix_char;
use crate::matches::next_token_spec;
use crate::matches::run_tokens;
use crate::matches::scan_literal;
use crate::matches::scan_token;
use crate::matches::TokenView;
use crate::matches::Varient;
use crate::strings::contains_at;
use crate::strings::first_occurrence;
use crate::strings::lemma_first_occurrence;
use crate::strings::occurs;
use vstd::prelude::*;

verus! {

/// A plain literal character: one that neither opens any syntax form nor
/// elevates a quantifier, so it always compiles to a one-character literal.
pub open spec fn plain_char(c: char) -> bool {
    c != '.' && c != '^' && c != '\\' && c != '(' && c != '[' && c != '+' && c != '$' && c != '?'
}

/// A pattern of plain characters compiles to exactly one unanchored
/// one-character literal token per pattern character, in order.
pub proof fn lemma_compile_plain(p: Seq<char>)
    requires
        forall|i: int| 0 <= i < p.len() ==> plain_char(p[i]),
    ensures
        compile_spec(p).len() == p.len(),
        forall|i: int|
            0 <= i < p.len() ==> compile_spec(p)[i] == TokenView::Str(
                seq![p[i]],
                Varient::Anywhere,
            ),
    decreases p.len(),
{
    if p.len() > 0 {
        assert(plain_char(p[0]));
        if p.len() >= 2 {
            assert(plain_char(p[1]));
            assert(!is_suffix_char(p[1]));
        }
        assert(next_token_spec(p) == scan_token(p, Varient::Anywhere));
        assert(scan_token(p, Varient::Anywhere) == Option::Some(
            scan_literal(p, Varient::Anywhere),
        ));
        let rest = p.skip(1);
        assert(forall|i: int| 0 <= i < rest.len() ==> rest[i] == p[i + 1]);
        lemma_compile_plain(rest);
        assert(compile_spec(p) == seq![TokenView::Str(seq![p[0]], Varient::Anywhere)]
            + compile_spec(rest));
    }
}

/// Running one unanchored one-character literal token per character of `p`
/// succeeds on any input that contains `p` starting at position `k`.
proof fn lemma_run_plain(ts: Seq<TokenView>, p: Seq<char>, s: Seq<char>, k: int)
    requires
        ts.len() == p.len(),
        forall|i: int|
            0 <= i < p.len() ==> ts[i] == TokenView::Str(seq![p[i]], Varient::Anywhere),
        contains_at(s, p, k),
    ensures
        run_tokens(ts, s),
    decreases p.len(),
{
    if p.len() > 0 {
        let cs = seq![p[0]];
        assert(forall|t: int|
            0 <= t < p.len() ==> s[k + t] == #[trigger] s.subrange(k, k + p.len() as int)[t]);
        assert(s[k] == p[0]);
        assert(contains_at(s, cs, k)) by {
            assert(s.subrange(k, k + 1) =~= cs);
        }
        lemma_first_occurrence(s, cs);
        match first_occurrence(s, cs) {
            Option::Some(i) => {
                assert(i <= k);
                assert(reg_match_spec(ts[0], s) == str_match_spec(cs, Varient::Anywhere, s));
                assert(str_match_spec(cs, Varient::Anywhere, s) == (
                    true,
                    Option::Some(s.skip(i + 1)),
                ));
                let rest = s.skip(i + 1);
                assert(contains_at(rest, p.skip(1), k - i)) by {
                    assert(rest.subrange(k - i, k - i + p.skip(1).len() as int) =~= p.skip(1));
                }
                if rest.len() == 0 {
                    assert(p.skip(1).len() == 0);
                    assert(ts.len() == 1);
                } else {
                    assert(forall|i2: int|
                        0 <= i2 < p.skip(1).len() ==> ts.skip(1)[i2] == TokenView::Str(
                            seq![p.skip(1)[i2]],
                            Varient::Anywhere,
                        ));
                    lemma_run_plain(ts.skip(1), p.skip(1), rest, k - i);
                }
            },
            Option::None => {
                assert(false);
            },
        }
    }
}

/// Any pattern made only of plain literal characters matches every text
/// that contains the pattern as a contiguous substring. The text here is
/// what the tokens run over: a line after its one trim of trailing
/// whitespace.
pub proof fn lemma_plain_pattern_matches(p: Seq<char>, s: Seq<char>)
    requires
        forall|i: int| 0 <= i < p.len() ==> plain_char(p[i]),
        occurs(s, p),
    ensures
        run_tokens(compile_spec(p), s),
{
    lemma_compile_plain(p);
    let k = choose|k: int| contains_at(s, p, k);
    lemma_run_plain(compile_spec(p), p, s, k);
}

/// A token that fails to match hands no remainder back: failure is always
/// the pair of a false verdict and an absent remainder.
pub proof fn lemma_failure_yields_no_remainder(t: TokenView, s: Seq<char>)
    ensures
        !reg_match_spec(t, s).0 ==> reg_match_spec(t, s).1 is None,
{
}

/// Compiling is deterministic: two compilations of the same pattern yield
/// structurally equal token sequences.
pub proof fn lemma_compile_deterministic(p: Seq<char>, q1: Seq<TokenView>, q2: Seq<TokenView>)
    requires
        q1 == compile_spec(p),
        q2 == compile_spec(p),
    ensures
        q1 == q2,
{
}

/// An empty pattern compiles to an empty token sequence, and an empty
/// token sequence vacuously accepts every line.
pub proof fn lemma_empty_pattern_accepts(line: Seq<char>)
    ensures
        compile_spec(Seq::<char>::empty()) == Seq::<TokenView>::empty(),
        check_spec(Seq::<TokenView>::empty(), line),
{
    assert(compile_spec(Seq::<char>::empty()) =~= Seq::<TokenView>::empty());
}

} // verus!
