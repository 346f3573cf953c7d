//! The textual model shared by the compiler and the matcher: substring
//! occurrence, first-occurrence search, character classes, runs, and
//! trailing-whitespace trimming, each as a spec function with a verified
//! executable counterpart.

use vstd::prelude::*;

verus! {

/// `p` occurs in `s` as a contiguous substring starting at index `i`.
pub open spec fn contains_at(s: Seq<char>, p: Seq<char>, i: int) -> bool {
    0 <= i && i + p.len() <= s.len() && s.subrange(i, i + p.len() as int) == p
}

/// `p` occurs somewhere in `s` as a contiguous substring.
pub open spec fn occurs(s: Seq<char>, p: Seq<char>) -> bool {
    exists|i: int| contains_at(s, p, i)
}

/// The index of the first occurrence of `p` in `s`, if `p` occurs at all.
pub open spec fn first_occurrence(s: Seq<char>, p: Seq<char>) -> Option<int>
    decreases s.len(),
{
    if contains_at(s, p, 0) {
        Option::Some(0)
    } else if s.len() == 0 {
        Option::None
    } else {
        match first_occurrence(s.skip(1), p) {
            Option::Some(i) => Option::Some(i + 1),
            Option::None => Option::None,
        }
    }
}

/// Occurrences one position into `s` are occurrences of `s.skip(1)`.
pub proof fn lemma_contains_at_skip1(s: Seq<char>, p: Seq<char>, j: int)
    requires
        s.len() > 0,
        j >= 0,
    ensures
        contains_at(s, p, j + 1) == contains_at(s.skip(1), p, j),
{
    if j + p.len() <= s.len() - 1 {
        assert(s.skip(1).subrange(j, j + p.len() as int) =~= s.subrange(
            j + 1,
            j + 1 + p.len() as int,
        ));
    }
}

/// `first_occurrence` returns the least index at which `p` occurs, and
/// returns nothing exactly when `p` does not occur.
pub proof fn lemma_first_occurrence(s: Seq<char>, p: Seq<char>)
    ensures
        match first_occurrence(s, p) {
            Option::Some(i) => contains_at(s, p, i) && (forall|j: int|
                0 <= j < i ==> !contains_at(s, p, j)),
            Option::None => !occurs(s, p),
        },
    decreases s.len(),
{
    if contains_at(s, p, 0) {
    } else if s.len() == 0 {
        assert forall|i: int| !contains_at(s, p, i) by {
            if 0 <= i && i + p.len() <= s.len() {
                assert(i == 0);
            }
        }
    } else {
        lemma_first_occurrence(s.skip(1), p);
        assert forall|j: int| j >= 0 implies contains_at(s, p, j + 1) == contains_at(
            s.skip(1),
            p,
            j,
        ) by {
            lemma_contains_at_skip1(s, p, j);
        }
        match first_occurrence(s.skip(1), p) {
            Option::Some(i) => {
                assert(contains_at(s, p, i + 1));
                assert forall|j: int| 0 <= j < i + 1 implies !contains_at(s, p, j) by {
                    if j > 0 {
                        assert(!contains_at(s.skip(1), p, j - 1));
                    }
                }
            },
            Option::None => {
                assert forall|j: int| !contains_at(s, p, j) by {
                    if j > 0 {
                        assert(!contains_at(s.skip(1), p, j - 1));
                    }
                }
            },
        }
    }
}

/// A decimal digit, `'0'` through `'9'`.
pub open spec fn is_digit_char(c: char) -> bool {
    ('0' as u32) <= (c as u32) && (c as u32) <= ('9' as u32)
}

/// Whether a character counts as a word character (letter or digit under
/// Unicode), exactly as `char::is_alphanumeric` decides it.
pub uninterp spec fn is_word_char(c: char) -> bool;

/// Whether a character is whitespace, exactly as `char::is_whitespace`
/// decides it.
pub uninterp spec fn is_space_char(c: char) -> bool;

/// Relies on `char::is_alphanumeric`: whether a character is alphabetic or
/// numeric depends on the character alone.
#[verifier::external_body]
pub(crate) fn char_is_word(c: char) -> (r: bool)
    ensures
        r == is_word_char(c),
{
    c.is_alphanumeric()
}

/// Relies on `char::is_whitespace`: whether a character is whitespace
/// depends on the character alone.
#[verifier::external_body]
pub(crate) fn char_is_space(c: char) -> (r: bool)
    ensures
        r == is_space_char(c),
{
    c.is_whitespace()
}

/// One character class test, selected by `word`: word characters when true,
/// decimal digits when false.
pub open spec fn class_sat(c: char, word: bool) -> bool {
    if word {
        is_word_char(c)
    } else {
        is_digit_char(c)
    }
}

pub(crate) fn class_sat_exec(c: char, word: bool) -> (r: bool)
    ensures
        r == class_sat(c, word),
{
    if word {
        char_is_word(c)
    } else {
        '0' <= c && c <= '9'
    }
}

/// The index of the first character of `s` in the class, if any.
pub open spec fn first_class_index(s: Seq<char>, word: bool) -> Option<int>
    decreases s.len(),
{
    if s.len() == 0 {
        Option::None
    } else if class_sat(s[0], word) {
        Option::Some(0)
    } else {
        match first_class_index(s.skip(1), word) {
            Option::Some(i) => Option::Some(i + 1),
            Option::None => Option::None,
        }
    }
}

/// `first_class_index` returns the least index of a class character, and
/// returns nothing exactly when no character of `s` is in the class.
pub proof fn lemma_first_class_index(s: Seq<char>, word: bool)
    ensures
        match first_class_index(s, word) {
            Option::Some(i) => 0 <= i < s.len() && class_sat(s[i], word) && (forall|j: int|
                0 <= j < i ==> !class_sat(s[j], word)),
            Option::None => forall|j: int| 0 <= j < s.len() ==> !class_sat(s[j], word),
        },
    decreases s.len(),
{
    if s.len() == 0 {
    } else if class_sat(s[0], word) {
    } else {
        lemma_first_class_index(s.skip(1), word);
        assert(forall|j: int| 1 <= j < s.len() ==> s[j] == s.skip(1)[j - 1]);
    }
}

/// The index of the first occurrence of the character `c` in `s`, if any.
pub open spec fn first_char_index(s: Seq<char>, c: char) -> Option<int>
    decreases s.len(),
{
    if s.len() == 0 {
        Option::None
    } else if s[0] == c {
        Option::Some(0)
    } else {
        match first_char_index(s.skip(1), c) {
            Option::Some(i) => Option::Some(i + 1),
            Option::None => Option::None,
        }
    }
}

/// `first_char_index` returns the least index holding `c`, and returns
/// nothing exactly when `c` does not occur in `s`.
pub proof fn lemma_first_char_index(s: Seq<char>, c: char)
    ensures
        match first_char_index(s, c) {
            Option::Some(i) => 0 <= i < s.len() && s[i] == c && (forall|j: int|
                0 <= j < i ==> s[j] != c),
            Option::None => forall|j: int| 0 <= j < s.len() ==> s[j] != c,
        },
    decreases s.len(),
{
    if s.len() == 0 {
    } else if s[0] == c {
    } else {
        lemma_first_char_index(s.skip(1), c);
        assert(forall|j: int| 1 <= j < s.len() ==> s[j] == s.skip(1)[j - 1]);
    }
}

/// The first position at or after `from` holding the character `c`.
pub(crate) fn find_char(s: &str, c: char, from: usize) -> (r: Option<usize>)
    requires
        from <= s@.len(),
    ensures
        match r {
            Option::Some(j) => from <= j < s@.len() && first_char_index(
                s@.skip(from as int),
                c,
            ) == Option::Some(j - from),
            Option::None => first_char_index(s@.skip(from as int), c) is None,
        },
{
    proof {
        lemma_first_char_index(s@.skip(from as int), c);
    }
    let n = s.unicode_len();
    let mut i: usize = from;
    while i < n
        invariant
            from <= i <= n,
            n == s@.len(),
            forall|t: int| from <= t < i ==> s@[t] != c,
        decreases n - i,
    {
        if s.get_char(i) == c {
            proof {
                lemma_first_char_index(s@.skip(from as int), c);
                assert(s@.skip(from as int)[i - from] == s@[i as int]);
                assert(forall|t: int|
                    0 <= t < i - from ==> s@.skip(from as int)[t] == s@[t + from]);
            }
            return Option::Some(i);
        }
        i += 1;
    }
    proof {
        assert(forall|t: int|
            0 <= t < s@.skip(from as int).len() ==> s@.skip(from as int)[t] == s@[t + from]);
    }
    Option::None
}

/// The end of the run of class characters that starts at `i`: the first
/// index at or after `i` whose character falls outside the class.
pub open spec fn class_run_end(s: Seq<char>, word: bool, i: int) -> int
    recommends
        0 <= i <= s.len(),
    decreases s.len() - i,
{
    if 0 <= i < s.len() && class_sat(s[i], word) {
        class_run_end(s, word, i + 1)
    } else {
        i
    }
}

/// The run end lies between `i` and the length of `s`, every character of
/// the run is in the class, and the character at the run end, if any, is not.
pub proof fn lemma_class_run_end(s: Seq<char>, word: bool, i: int)
    requires
        0 <= i <= s.len(),
    ensures
        i <= class_run_end(s, word, i) <= s.len(),
        forall|j: int| i <= j < class_run_end(s, word, i) ==> class_sat(s[j], word),
        class_run_end(s, word, i) < s.len() ==> !class_sat(s[class_run_end(s, word, i)], word),
    decreases s.len() - i,
{
    if 0 <= i < s.len() && class_sat(s[i], word) {
        lemma_class_run_end(s, word, i + 1);
    }
}

/// The end of the run of back-to-back copies of `p` that starts at `i`.
pub open spec fn lit_run_end(s: Seq<char>, p: Seq<char>, i: int) -> int
    recommends
        0 <= i <= s.len(),
    decreases s.len() - i,
{
    if p.len() > 0 && 0 <= i && contains_at(s, p, i) {
        lit_run_end(s, p, i + p.len() as int)
    } else {
        i
    }
}

/// The run of copies of `p` stays inside `s` and advances by whole copies.
pub proof fn lemma_lit_run_end(s: Seq<char>, p: Seq<char>, i: int)
    requires
        0 <= i <= s.len(),
    ensures
        i <= lit_run_end(s, p, i) <= s.len(),
    decreases s.len() - i,
{
    if p.len() > 0 && contains_at(s, p, i) {
        lemma_lit_run_end(s, p, i + p.len() as int);
    }
}

/// Whether `p` occurs in `s` at position `i`, by comparing characters.
pub(crate) fn occurs_at(s: &str, p: &str, i: usize) -> (r: bool)
    requires
        i + p@.len() <= s@.len(),
    ensures
        r == contains_at(s@, p@, i as int),
{
    let n = s.unicode_len();
    let m = p.unicode_len();
    let mut k: usize = 0;
    while k < m
        invariant
            k <= m,
            n == s@.len(),
            m == p@.len(),
            i + m <= n,
            forall|t: int| 0 <= t < k ==> s@[i + t] == p@[t],
        decreases m - k,
    {
        if s.get_char(i + k) != p.get_char(k) {
            proof {
                assert(s@.subrange(i as int, i + m as int)[k as int] == s@[i + k]);
            }
            return false;
        }
        k += 1;
    }
    proof {
        assert(s@.subrange(i as int, i + m as int) =~= p@);
    }
    true
}

/// The first position at which `p` occurs in `s`, searching left to right.
pub(crate) fn find_sub(s: &str, p: &str) -> (r: Option<usize>)
    ensures
        match r {
            Option::Some(i) => first_occurrence(s@, p@) == Option::Some(i as int),
            Option::None => first_occurrence(s@, p@) is None,
        },
{
    proof {
        lemma_first_occurrence(s@, p@);
    }
    let n = s.unicode_len();
    let m = p.unicode_len();
    if m > n {
        proof {
            assert forall|j: int| !contains_at(s@, p@, j) by {}
        }
        return Option::None;
    }
    if m == 0 {
        proof {
            assert(s@.subrange(0, 0) =~= p@);
            lemma_first_occurrence(s@, p@);
        }
        return Option::Some(0);
    }
    let mut i: usize = 0;
    while i <= n - m
        invariant
            0 < m <= n,
            i <= n - m + 1,
            n == s@.len(),
            m == p@.len(),
            forall|j: int| 0 <= j < i ==> !contains_at(s@, p@, j),
        decreases n - m + 1 - i,
    {
        if occurs_at(s, p, i) {
            proof {
                lemma_first_occurrence(s@, p@);
            }
            return Option::Some(i);
        }
        i += 1;
    }
    proof {
        assert forall|j: int| !contains_at(s@, p@, j) by {
            if 0 <= j && j + p@.len() <= s@.len() {
                assert(j < i);
            }
        }
    }
    Option::None
}

/// Whether `p` is a prefix of `s`.
pub(crate) fn has_prefix(s: &str, p: &str) -> (r: bool)
    ensures
        r == contains_at(s@, p@, 0),
{
    if p.unicode_len() > s.unicode_len() {
        return false;
    }
    occurs_at(s, p, 0)
}

/// Whether `p` is a suffix of `s`.
pub(crate) fn has_suffix(s: &str, p: &str) -> (r: bool)
    ensures
        r == (p@.len() <= s@.len() && s@.skip(s@.len() - p@.len()) == p@),
{
    let n = s.unicode_len();
    let m = p.unicode_len();
    if m > n {
        return false;
    }
    let r = occurs_at(s, p, n - m);
    proof {
        if r {
            assert(s@.skip(n - m as int) =~= s@.subrange(n - m as int, n - m + m as int));
        } else {
            assert(s@.subrange(n - m as int, n - m + m as int) =~= s@.skip(n - m as int));
        }
    }
    r
}

/// The first character of `s` that lies in the class, if any.
pub(crate) fn find_class(s: &str, word: bool) -> (r: Option<usize>)
    ensures
        match r {
            Option::Some(i) => first_class_index(s@, word) == Option::Some(i as int),
            Option::None => first_class_index(s@, word) is None,
        },
{
    proof {
        lemma_first_class_index(s@, word);
    }
    let n = s.unicode_len();
    let mut i: usize = 0;
    while i < n
        invariant
            i <= n,
            n == s@.len(),
            forall|j: int| 0 <= j < i ==> !class_sat(s@[j], word),
        decreases n - i,
    {
        if class_sat_exec(s.get_char(i), word) {
            proof {
                lemma_first_class_index(s@, word);
            }
            return Option::Some(i);
        }
        i += 1;
    }
    Option::None
}

/// The end of the class run that starts at `i`.
pub(crate) fn class_run_end_exec(s: &str, word: bool, i: usize) -> (r: usize)
    requires
        i <= s@.len(),
    ensures
        r == class_run_end(s@, word, i as int),
{
    let n = s.unicode_len();
    let mut j: usize = i;
    while j < n && class_sat_exec(s.get_char(j), word)
        invariant
            i <= j <= n,
            n == s@.len(),
            class_run_end(s@, word, i as int) == class_run_end(s@, word, j as int),
        decreases n - j,
    {
        j += 1;
    }
    j
}

/// The end of the run of back-to-back copies of `p` that starts at `i`.
pub(crate) fn lit_run_end_exec(s: &str, p: &str, i: usize) -> (r: usize)
    requires
        i <= s@.len(),
        p@.len() > 0,
    ensures
        r == lit_run_end(s@, p@, i as int),
{
    let n = s.unicode_len();
    let m = p.unicode_len();
    let mut j: usize = i;
    loop
        invariant
            i <= j <= n,
            n == s@.len(),
            m == p@.len(),
            m > 0,
            lit_run_end(s@, p@, i as int) == lit_run_end(s@, p@, j as int),
        decreases n - j,
    {
        if m > n - j {
            return j;
        }
        if !occurs_at(s, p, j) {
            return j;
        }
        j += m;
    }
}

/// Whether the character `c` occurs in `s`.
pub(crate) fn contains_char(s: &str, c: char) -> (r: bool)
    ensures
        r == s@.contains(c),
{
    let n = s.unicode_len();
    let mut i: usize = 0;
    while i < n
        invariant
            i <= n,
            n == s@.len(),
            forall|j: int| 0 <= j < i ==> s@[j] != c,
        decreases n - i,
    {
        if s.get_char(i) == c {
            return true;
        }
        i += 1;
    }
    false
}

/// A line with its trailing whitespace removed.
pub open spec fn trim_end_spec(s: Seq<char>) -> Seq<char>
    decreases s.len(),
{
    if s.len() > 0 && is_space_char(s[s.len() - 1]) {
        trim_end_spec(s.drop_last())
    } else {
        s
    }
}

/// The borrowed front of `s` that remains once trailing whitespace goes.
pub(crate) fn trim_end_exec(s: &str) -> (r: &str)
    ensures
        r@ == trim_end_spec(s@),
{
    let n = s.unicode_len();
    let mut e: usize = n;
    proof {
        assert(s@.take(n as int) =~= s@);
    }
    loop
        invariant
            e <= n,
            n == s@.len(),
            trim_end_spec(s@) == trim_end_spec(s@.take(e as int)),
        decreases e,
    {
        if e == 0 {
            let r = s.substring_char(0, 0);
            proof {
                assert(s@.take(0) =~= Seq::<char>::empty());
            }
            return r;
        }
        let c = s.get_char(e - 1);
        if !char_is_space(c) {
            let r = s.substring_char(0, e);
            proof {
                assert(s@.take(e as int)[e - 1] == c);
                assert(trim_end_spec(s@.take(e as int)) == s@.take(e as int));
            }
            return r;
        }
        proof {
            assert(s@.take(e as int).drop_last() =~= s@.take(e - 1));
            assert(s@.take(e as int)[e - 1] == c);
        }
        e -= 1;
    }
}

} // verus!
