//! Character classes and position-level scanning functions shared by the two
//! engines. Positions are character indices into the view of the input text;
//! every spec function here maps a position to the position where a scan of
//! some token shape ends.

use vstd::prelude::*;

verus! {

/// ASCII whitespace, as the lazy engine skips it between tokens.
pub open spec fn is_ws(c: char) -> bool {
    c == ' ' || c == '\t' || c == '\n' || c == '\r' || c == '\x0c'
}

/// An ASCII decimal digit.
pub open spec fn is_digit(c: char) -> bool {
    48 <= c as u32 <= 57
}

/// The numeric value of an ASCII digit.
pub open spec fn digit_val(c: char) -> nat
    recommends
        is_digit(c),
{
    (c as u32 - 48) as nat
}

/// The value of a sequence of ASCII digits read in base 10.
pub open spec fn digits_val(s: Seq<char>) -> nat
    decreases s.len(),
{
    if s.len() == 0 {
        0
    } else {
        digits_val(s.drop_last()) * 10 + digit_val(s.last())
    }
}

/// The first position at or after `i` that does not hold whitespace.
pub open spec fn skip_ws(s: Seq<char>, i: int) -> int
    decreases s.len() - i
        when 0 <= i <= s.len()
{
    if i < s.len() && is_ws(s[i]) {
        skip_ws(s, i + 1)
    } else {
        i
    }
}

pub broadcast proof fn lemma_skip_ws(s: Seq<char>, i: int)
    requires
        0 <= i <= s.len(),
    ensures
        i <= #[trigger] skip_ws(s, i) <= s.len(),
        skip_ws(s, i) < s.len() ==> !is_ws(s[skip_ws(s, i)]),
    decreases s.len() - i,
{
    if i < s.len() && is_ws(s[i]) {
        lemma_skip_ws(s, i + 1);
    }
}

/// One character consumed, except at the end of the input, where the
/// position stays put.
pub open spec fn adv(s: Seq<char>, p: int) -> int {
    if p < s.len() {
        p + 1
    } else {
        p
    }
}

/// One character consumed, then all following whitespace: the position a
/// cursor holds after it finishes a token.
pub open spec fn adv_token(s: Seq<char>, p: int) -> int
    recommends
        0 <= p <= s.len(),
{
    skip_ws(s, adv(s, p))
}

pub broadcast proof fn lemma_adv_token(s: Seq<char>, p: int)
    requires
        0 <= p <= s.len(),
    ensures
        adv(s, p) <= #[trigger] adv_token(s, p) <= s.len(),
        adv_token(s, p) < s.len() ==> !is_ws(s[adv_token(s, p)]),
    decreases s.len() - p,
{
    lemma_skip_ws(s, adv(s, p));
}

/// Where the body of a quoted string ends: the position of the closing
/// quote, scanning from inside the body at `i`. A backslash skips the next
/// character, or five characters when it opens a `\uXXXX` escape. `None`
/// means the input ended first.
pub open spec fn string_body_end(s: Seq<char>, i: int) -> Option<int>
    decreases s.len() - i
        when 0 <= i
{
    if i >= s.len() {
        None
    } else if s[i] == '"' {
        Some(i)
    } else if s[i] == '\\' {
        if i + 1 < s.len() && s[i + 1] == 'u' {
            if i + 6 <= s.len() {
                string_body_end(s, i + 6)
            } else {
                None
            }
        } else {
            if i + 2 <= s.len() {
                string_body_end(s, i + 2)
            } else {
                None
            }
        }
    } else {
        string_body_end(s, i + 1)
    }
}

pub broadcast proof fn lemma_string_body_end(s: Seq<char>, i: int)
    requires
        0 <= i,
    ensures
        #[trigger] string_body_end(s, i) matches Some(q) ==> i <= q < s.len() && s[q] == '"',
    decreases s.len() - i,
{
    if i >= s.len() {
    } else if s[i] == '"' {
    } else if s[i] == '\\' {
        if i + 1 < s.len() && s[i + 1] == 'u' {
            if i + 6 <= s.len() {
                lemma_string_body_end(s, i + 6);
            }
        } else {
            if i + 2 <= s.len() {
                lemma_string_body_end(s, i + 2);
            }
        }
    } else {
        lemma_string_body_end(s, i + 1);
    }
}

/// The first position at or after `i` that does not hold an ASCII digit.
pub open spec fn digits_end(s: Seq<char>, i: int) -> int
    decreases s.len() - i
        when 0 <= i <= s.len()
{
    if i < s.len() && is_digit(s[i]) {
        digits_end(s, i + 1)
    } else {
        i
    }
}

pub broadcast proof fn lemma_digits_end(s: Seq<char>, i: int)
    requires
        0 <= i <= s.len(),
    ensures
        i <= #[trigger] digits_end(s, i) <= s.len(),
        digits_end(s, i) < s.len() ==> !is_digit(s[digits_end(s, i)]),
    decreases s.len() - i,
{
    if i < s.len() && is_digit(s[i]) {
        lemma_digits_end(s, i + 1);
    }
}

/// Appending one digit multiplies the value by ten and adds the digit.
pub proof fn lemma_digits_val_step(s: Seq<char>, i: int, j: int)
    requires
        0 <= i <= j < s.len(),
    ensures
        digits_val(s.subrange(i, j + 1)) == digits_val(s.subrange(i, j)) * 10 + digit_val(s[j]),
{
    assert(s.subrange(i, j + 1).drop_last() =~= s.subrange(i, j));
    assert(s.subrange(i, j + 1).last() == s[j]);
}

/// A digit run is worth at least as much as any of its prefixes.
pub proof fn lemma_digits_val_prefix(s: Seq<char>, i: int, j: int, e: int)
    requires
        0 <= i <= j <= e <= s.len(),
    ensures
        digits_val(s.subrange(i, j)) <= digits_val(s.subrange(i, e)),
    decreases e - j,
{
    if j < e {
        lemma_digits_val_step(s, i, j);
        lemma_digits_val_prefix(s, i, j + 1, e);
    }
}

/// Whether one more digit still fits in a 64-bit accumulator, decided by
/// the quotient test the executable parsers use.
pub proof fn lemma_u64_digit_bound(acc: int, d: int)
    requires
        0 <= acc,
        0 <= d < 10,
    ensures
        (acc <= (u64::MAX - d) / 10) <==> (acc * 10 + d <= u64::MAX),
{
    vstd::arithmetic::div_mod::lemma_fundamental_div_mod((u64::MAX - d) as int, 10);
}

/// Whether two strings hold the same characters, decided in executable
/// code without allocating.
pub fn str_equal(a: &str, b: &str) -> (r: bool)
    ensures
        r == (a@ == b@),
{
    let al = a.unicode_len();
    let bl = b.unicode_len();
    if al != bl {
        proof {
            if a@ == b@ {
                assert(a@.len() == b@.len());
            }
        }
        return false;
    }
    let mut i: usize = 0;
    while i < al
        invariant
            al == a@.len(),
            al == b@.len(),
            i <= al,
            forall|t: int| 0 <= t < i ==> a@[t] == b@[t],
        decreases al - i,
    {
        if a.get_char(i) != b.get_char(i) {
            proof {
                if a@ == b@ {
                    assert(a@[i as int] == b@[i as int]);
                }
            }
            return false;
        }
        i = i + 1;
    }
    proof {
        assert(a@ =~= b@);
    }
    true
}

/// Whether `c` is whitespace, decided in executable code.
pub fn ws_char(c: char) -> (b: bool)
    ensures
        b == is_ws(c),
{
    c == ' ' || c == '\t' || c == '\n' || c == '\r' || c == '\x0c'
}

/// Whether `c` is an ASCII digit, decided in executable code.
pub fn digit_char(c: char) -> (b: bool)
    ensures
        b == is_digit(c),
{
    let v = c as u32;
    48 <= v && v <= 57
}

} // verus!
