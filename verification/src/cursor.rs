//! The lazy engine's scanner: a cursor over the input text that skips one
//! JSON value at a time, together with the spec-level scanners that say,
//! position by position, what each skip does.

use vstd::prelude::*;

use crate::scan::{
    adv, adv_token, digit_char, is_digit, is_ws, lemma_adv_token, lemma_skip_ws,
    lemma_string_body_end, skip_ws, string_body_end, ws_char,
};

verus! {

broadcast use {
    crate::scan::lemma_skip_ws,
    crate::scan::lemma_adv_token,
    crate::scan::lemma_string_body_end,
};

/// What a navigation or scanning call of the lazy engine can fail with.
#[derive(Debug, Clone, PartialEq, Eq)]
pub enum Error {
    /// The element at the current position is not an array.
    NotAnArray,
    /// The element at the current position is not a number.
    NotANumber,
    /// The element at the current position is not an object.
    NotAnObject,
    /// The element at the current position is not a string.
    NotAString,
    /// The input ended inside an array.
    UnterminatedArray,
    /// The input ended inside a string.
    UnterminatedString,
    /// The array ended before the requested index was reached.
    IndexNotFound(usize),
    /// A fraction, exponent or sign character inside a number slot, which
    /// this engine's integer-only numbers reject.
    UnsupportedCharInNumber(char),
    /// A value starting with a character this engine does not support:
    /// nested arrays, booleans, null, or anything unrecognized.
    UnexpectedValue(char),
    /// The input ended inside an object, or a key was not followed by `:`.
    UnterminatedObject,
    /// The object holds no entry under the requested key.
    KeyNotFound(String),
    /// A backslash escape inside a compared or extracted string, which this
    /// engine does not decode.
    UnsupportedEscape,
}

pub type Result<T> = core::result::Result<T, Error>;

/// Where a string scanned without escape support ends: the position of the
/// closing quote, scanning from inside the body at `i`. Key comparison and
/// string extraction refuse escapes rather than mishandle them, so a
/// backslash fails the scan.
pub open spec fn raw_scan(s: Seq<char>, i: int) -> core::result::Result<int, Error>
    decreases s.len() - i
        when 0 <= i <= s.len()
{
    if i >= s.len() {
        Err(Error::UnterminatedString)
    } else if s[i] == '"' {
        Ok(i)
    } else if s[i] == '\\' {
        Err(Error::UnsupportedEscape)
    } else {
        raw_scan(s, i + 1)
    }
}

pub broadcast proof fn lemma_raw_scan(s: Seq<char>, i: int)
    requires
        0 <= i <= s.len(),
    ensures
        #[trigger] raw_scan(s, i) matches Ok(q) ==> i <= q < s.len() && s[q] == '"',
    decreases s.len() - i,
{
    if i < s.len() && s[i] != '"' && s[i] != '\\' {
        lemma_raw_scan(s, i + 1);
    }
}

/// Where a number ends, scanning from `i`, the position after its first
/// character. Digits are consumed; a fraction, exponent or sign character is
/// rejected and returned; any other character ends the number, and trailing
/// whitespace is then skipped.
pub open spec fn number_end(s: Seq<char>, i: int) -> core::result::Result<int, char>
    decreases s.len() - i
        when 0 <= i <= s.len()
{
    if i >= s.len() {
        Ok(i)
    } else if is_digit(s[i]) {
        number_end(s, i + 1)
    } else if s[i] == '.' || s[i] == 'e' || s[i] == 'E' || s[i] == '+' || s[i] == '-' {
        Err(s[i])
    } else {
        Ok(skip_ws(s, i))
    }
}

/// Where one JSON value ends, scanning from `p`. The position returned is
/// the one the cursor holds afterwards: past the value and any whitespace
/// behind it. At the end of the input the scan succeeds without moving.
/// Objects, strings and integer numbers are the supported value forms;
/// anything else is rejected with the offending character.
pub open spec fn value_end(s: Seq<char>, p: int) -> core::result::Result<int, Error>
    decreases s.len() - p, 2int
        when 0 <= p <= s.len()
{
    if p >= s.len() {
        Ok(p)
    } else if s[p] == '{' {
        object_end(s, p)
    } else if s[p] == '"' {
        match string_body_end(s, p + 1) {
            Some(q) => {
                proof {
                    lemma_string_body_end(s, p + 1);
                }
                Ok(adv_token(s, q))
            },
            None => Err(Error::UnterminatedString),
        }
    } else if s[p] == '-' || is_digit(s[p]) {
        match number_end(s, p + 1) {
            Ok(e) => Ok(e),
            Err(c) => Err(Error::UnsupportedCharInNumber(c)),
        }
    } else {
        Err(Error::UnexpectedValue(s[p]))
    }
}

/// Where an object ends, scanning from its opening brace at `p`.
pub open spec fn object_end(s: Seq<char>, p: int) -> core::result::Result<int, Error>
    decreases s.len() - p, 1int
        when 0 <= p < s.len()
{
    proof {
        lemma_adv_token(s, p);
    }
    object_body_end(s, adv_token(s, p))
}

/// Where an object ends, scanning from `i`, a position inside it at which a
/// key or the closing brace is expected. Each round skips a key string,
/// requires a colon, skips one value and an optional comma.
pub open spec fn object_body_end(s: Seq<char>, i: int) -> core::result::Result<int, Error>
    decreases s.len() - i, 0int
        when 0 <= i <= s.len()
{
    if i >= s.len() {
        Err(Error::UnterminatedObject)
    } else if s[i] == '}' {
        proof {
            lemma_adv_token(s, i);
        }
        Ok(adv_token(s, i))
    } else {
        match string_body_end(s, i + 1) {
            None => Err(Error::UnterminatedString),
            Some(q) => {
                proof {
                    lemma_string_body_end(s, i + 1);
                    lemma_adv_token(s, q);
                }
                let after_key = adv_token(s, q);
                if after_key < s.len() && s[after_key] != ':' {
                    Err(Error::UnterminatedObject)
                } else {
                    proof {
                        lemma_adv_token(s, after_key);
                    }
                    let at_val = adv_token(s, after_key);
                    match value_end(s, at_val) {
                        Err(e) => Err(e),
                        Ok(e0) => {
                            let e = if at_val <= e0 <= s.len() {
                                e0
                            } else {
                                at_val
                            };
                            proof {
                                if e < s.len() {
                                    lemma_adv_token(s, e);
                                }
                            }
                            let next = if e < s.len() && s[e] == ',' {
                                adv_token(s, e)
                            } else {
                                e
                            };
                            object_body_end(s, next)
                        },
                    }
                }
            },
        }
    }
}

/// The position of the array element with `k` more elements to skip,
/// scanning from `i`, a position inside the array at which an element or the
/// closing bracket is expected. `idx` is the index the caller asked for; it
/// only names the element in the error: an array that closes or an input
/// that ends before the element is reached fails, also when that happens
/// right where the element itself was expected. Each round skips one value
/// and an optional comma.
pub open spec fn elem_pos(s: Seq<char>, i: int, k: nat, idx: usize) -> core::result::Result<
    int,
    Error,
>
    decreases k
        when 0 <= i <= s.len()
{
    if i >= s.len() {
        Err(Error::UnterminatedArray)
    } else if s[i] == ']' {
        Err(Error::IndexNotFound(idx))
    } else if k == 0 {
        Ok(i)
    } else {
        match value_end(s, i) {
            Err(e) => Err(e),
            Ok(e0) => {
                let e = if i <= e0 <= s.len() {
                    e0
                } else {
                    i
                };
                proof {
                    if e < s.len() {
                        lemma_adv_token(s, e);
                    }
                }
                let next = if e < s.len() && s[e] == ',' {
                    adv_token(s, e)
                } else {
                    e
                };
                elem_pos(s, next, (k - 1) as nat, idx)
            },
        }
    }
}

/// The position of the value under `key`, scanning from `i`, a position
/// inside an object at which a key or the closing brace is expected.
/// `Ok(Some(p))` finds the first entry whose key equals `key` and points at
/// its value; `Ok(None)` reaches the closing brace without a match; an
/// input that ends before either is an unterminated object. Keys are
/// compared raw, so a key holding a backslash fails the scan.
pub open spec fn key_pos(s: Seq<char>, i: int, key: Seq<char>) -> core::result::Result<
    Option<int>,
    Error,
>
    decreases s.len() - i
        when 0 <= i <= s.len()
{
    if i >= s.len() {
        Err(Error::UnterminatedObject)
    } else if s[i] == '}' {
        Ok(None)
    } else {
        match raw_scan(s, i + 1) {
            Err(e) => Err(e),
            Ok(q) => {
                proof {
                    lemma_raw_scan(s, i + 1);
                    lemma_adv_token(s, q);
                }
                let matched = s.subrange(i + 1, q) == key;
                let after_key = adv_token(s, q);
                if after_key >= s.len() || s[after_key] != ':' {
                    Err(Error::UnterminatedObject)
                } else {
                    proof {
                        lemma_adv_token(s, after_key);
                    }
                    let at_val = adv_token(s, after_key);
                    if matched {
                        Ok(Some(at_val))
                    } else {
                        match value_end(s, at_val) {
                            Err(e) => Err(e),
                            Ok(e0) => {
                                let e = if at_val <= e0 <= s.len() {
                                    e0
                                } else {
                                    at_val
                                };
                                proof {
                                    if e < s.len() {
                                        lemma_adv_token(s, e);
                                    }
                                }
                                let next = if e < s.len() && s[e] == ',' {
                                    adv_token(s, e)
                                } else {
                                    e
                                };
                                key_pos(s, next, key)
                            },
                        }
                    }
                }
            },
        }
    }
}

/// A well-formed cursor's position lies within its text.
pub broadcast proof fn lemma_cursor_wf_bounds<'a>(c: Cursor<'a>)
    ensures
        #[trigger] c.wf() ==> 0 <= c.position() <= c.text_seq().len() <= usize::MAX,
{
}

/// A single-pass scanner over the input text. It tracks the position of the
/// next unconsumed character; the text itself is borrowed and never copied.
/// Cursors are plain values: a copy scans independently of the original.
#[derive(Clone, Copy)]
pub struct Cursor<'a> {
    text: &'a str,
    pos: usize,
    len: usize,
}

impl<'a> Cursor<'a> {
    /// The characters of the input text.
    pub closed spec fn text_seq(self) -> Seq<char> {
        self.text@
    }

    /// The position of the next unconsumed character.
    pub closed spec fn position(self) -> int {
        self.pos as int
    }

    /// The cached length matches the text and the position is in bounds.
    pub closed spec fn wf(self) -> bool {
        self.len == self.text@.len() && self.pos <= self.len
    }

    /// The character under the cursor, if any.
    pub open spec fn current(self) -> Option<char> {
        if self.position() < self.text_seq().len() {
            Some(self.text_seq()[self.position()])
        } else {
            None
        }
    }

    /// The cursor rests at the end of the input or on non-whitespace.
    pub open spec fn normalized(self) -> bool {
        self.position() == self.text_seq().len() || !is_ws(self.text_seq()[self.position()])
    }

    /// Positions the cursor at the first non-whitespace character.
    pub fn new(data: &'a str) -> (c: Self)
        ensures
            c.wf(),
            c.text_seq() == data@,
            c.position() == skip_ws(data@, 0),
            c.normalized(),
    {
        let len = data.unicode_len();
        let mut pos: usize = 0;
        proof {
            lemma_skip_ws(data@, 0);
        }
        while pos < len && ws_char(data.get_char(pos))
            invariant
                len == data@.len(),
                pos <= len,
                skip_ws(data@, 0) == skip_ws(data@, pos as int),
            decreases len - pos,
        {
            pos = pos + 1;
        }
        proof {
            lemma_skip_ws(data@, 0);
        }
        Cursor { text: data, pos, len }
    }

    /// The character under the cursor, if any.
    pub fn get_char(&self) -> (r: Option<char>)
        requires
            self.wf(),
        ensures
            r == self.current(),
    {
        if self.pos < self.len {
            Some(self.text.get_char(self.pos))
        } else {
            None
        }
    }

    /// Consumes exactly one character; no whitespace is skipped. Past the
    /// end of the input the cursor stays put.
    pub fn advance_character(&mut self)
        requires
            old(self).wf(),
        ensures
            final(self).wf(),
            final(self).text_seq() == old(self).text_seq(),
            final(self).position() == adv(old(self).text_seq(), old(self).position()),
    {
        if self.pos < self.len {
            self.pos = self.pos + 1;
        }
    }

    /// Consumes one character, then all following whitespace: the move a
    /// scan makes when it finishes a token.
    pub fn advance_token(&mut self)
        requires
            old(self).wf(),
        ensures
            final(self).wf(),
            final(self).text_seq() == old(self).text_seq(),
            final(self).position() == adv_token(old(self).text_seq(), old(self).position()),
            final(self).normalized(),
            old(self).position() <= final(self).position(),
    {
        let ghost s = self.text@;
        let ghost p0 = self.pos as int;
        self.advance_character();
        proof {
            lemma_skip_ws(s, adv(s, p0));
        }
        while self.pos < self.len && ws_char(self.text.get_char(self.pos))
            invariant
                self.wf(),
                self.text@ == s,
                adv(s, p0) <= self.pos as int <= s.len(),
                skip_ws(s, adv(s, p0)) == skip_ws(s, self.pos as int),
            decreases self.len - self.pos,
        {
            self.pos = self.pos + 1;
        }
    }

    /// Skips one string. The cursor is assumed to sit on the opening quote,
    /// which is consumed without inspection; the scan then runs to the
    /// closing unescaped quote and past any whitespace behind it.
    pub fn advance_string(&mut self) -> (r: Result<()>)
        requires
            old(self).wf(),
        ensures
            final(self).wf(),
            final(self).text_seq() == old(self).text_seq(),
            old(self).position() <= final(self).position(),
            match string_body_end(
                old(self).text_seq(),
                adv(old(self).text_seq(), old(self).position()),
            ) {
                Some(q) => r is Ok && final(self).position() == adv_token(
                    old(self).text_seq(),
                    q,
                ) && final(self).normalized(),
                None => r matches Err(e) && e == Error::UnterminatedString,
            },
    {
        let ghost s = self.text@;
        self.advance_character();
        let ghost b = self.pos as int;
        loop
            invariant
                self.wf(),
                self.text@ == s,
                s == old(self).text_seq(),
                b == adv(s, old(self).position()),
                old(self).position() <= b,
                b <= self.pos as int <= s.len(),
                string_body_end(s, b) == string_body_end(s, self.pos as int),
            decreases s.len() - self.pos,
        {
            let c = match self.get_char() {
                None => {
                    return Err(Error::UnterminatedString);
                },
                Some(c) => c,
            };
            if c == '"' {
                let ghost q = self.pos as int;
                self.advance_token();
                proof {
                    lemma_adv_token(s, q);
                }
                return Ok(());
            }
            if c == '\\' {
                self.advance_character();
                let u = match self.get_char() {
                    Some(u) => u == 'u',
                    None => false,
                };
                if u {
                    self.advance_character();
                    self.advance_character();
                    self.advance_character();
                    self.advance_character();
                }
            }
            self.advance_character();
        }
    }

    /// Skips one number. The cursor is assumed to sit on the leading digit
    /// or minus sign, which is consumed without inspection; digits are then
    /// consumed until a non-digit ends the number, and a fraction, exponent
    /// or sign character fails the scan instead.
    pub fn advance_number(&mut self) -> (r: Result<()>)
        requires
            old(self).wf(),
        ensures
            final(self).wf(),
            final(self).text_seq() == old(self).text_seq(),
            old(self).position() <= final(self).position(),
            match number_end(old(self).text_seq(), adv(old(self).text_seq(), old(self).position())) {
                Ok(e) => r is Ok && final(self).position() == e && final(self).normalized(),
                Err(c) => r matches Err(e) && e == Error::UnsupportedCharInNumber(c),
            },
    {
        let ghost s = self.text@;
        self.advance_character();
        let ghost b = self.pos as int;
        loop
            invariant
                self.wf(),
                self.text@ == s,
                s == old(self).text_seq(),
                b == adv(s, old(self).position()),
                old(self).position() <= b,
                b <= self.pos as int <= s.len(),
                number_end(s, b) == number_end(s, self.pos as int),
            decreases s.len() - self.pos,
        {
            let c = match self.get_char() {
                None => {
                    return Ok(());
                },
                Some(c) => c,
            };
            if digit_char(c) {
                self.advance_character();
            } else if c == '.' || c == 'e' || c == 'E' || c == '+' || c == '-' {
                return Err(Error::UnsupportedCharInNumber(c));
            } else {
                let ghost w = self.pos as int;
                proof {
                    lemma_skip_ws(s, w);
                }
                while self.pos < self.len && ws_char(self.text.get_char(self.pos))
                    invariant
                        self.wf(),
                        self.text@ == s,
                        s == old(self).text_seq(),
                        old(self).position() <= w,
                        0 <= w <= self.pos as int <= s.len(),
                        skip_ws(s, w) == skip_ws(s, self.pos as int),
                        number_end(s, adv(s, old(self).position())) == Ok::<int, char>(
                            skip_ws(s, w),
                        ),
                    decreases self.len - self.pos,
                {
                    self.pos = self.pos + 1;
                }
                return Ok(());
            }
        }
    }

    /// Skips one string while comparing its raw characters, one by one,
    /// against `key`, without allocating. The cursor is assumed to sit on
    /// the opening quote, which is consumed without inspection. Returns
    /// whether the string's body equals `key` exactly. Escapes inside the
    /// compared string are not supported and fail the scan.
    pub fn advance_and_match_string(&mut self, key: &str) -> (r: Result<bool>)
        requires
            old(self).wf(),
        ensures
            final(self).wf(),
            final(self).text_seq() == old(self).text_seq(),
            old(self).position() <= final(self).position(),
            match raw_scan(old(self).text_seq(), adv(old(self).text_seq(), old(self).position())) {
                Ok(q) => {
                    &&& r matches Ok(m)
                    &&& m == (old(self).text_seq().subrange(
                        adv(old(self).text_seq(), old(self).position()),
                        q,
                    ) == key@)
                    &&& final(self).position() == adv_token(old(self).text_seq(), q)
                    &&& final(self).normalized()
                },
                Err(err) => r matches Err(e2) && e2 == err,
            },
    {
        let ghost s = self.text@;
        self.advance_character();
        let ghost b = self.pos as int;
        let key_len = key.unicode_len();
        let mut j: usize = 0;
        let mut m: bool = true;
        proof {
            assert(s.subrange(b, b) =~= key@.subrange(0, 0));
        }
        loop
            invariant
                self.wf(),
                self.text@ == s,
                s == old(self).text_seq(),
                b == adv(s, old(self).position()),
                old(self).position() <= b,
                b <= self.pos as int <= s.len(),
                self.pos as int - b == j as int,
                key_len == key@.len(),
                raw_scan(s, b) == raw_scan(s, self.pos as int),
                m == (j <= key@.len() && s.subrange(b, self.pos as int) == key@.subrange(
                    0,
                    j as int,
                )),
            decreases s.len() - self.pos,
        {
            let ghost i = self.pos as int;
            let c = match self.get_char() {
                None => {
                    return Err(Error::UnterminatedString);
                },
                Some(c) => c,
            };
            if c == '"' {
                let res = m && j == key_len;
                proof {
                    if res {
                        assert(key@.subrange(0, key@.len() as int) =~= key@);
                    }
                    if s.subrange(b, i) == key@ {
                        assert(i - b == key@.len());
                        assert(key@.subrange(0, j as int) =~= key@);
                    }
                }
                self.advance_token();
                return Ok(res);
            }
            if c == '\\' {
                return Err(Error::UnsupportedEscape);
            }
            let ghost m_old = m;
            if j < key_len {
                let kc = key.get_char(j);
                m = m && c == kc;
            } else {
                m = false;
            }
            proof {
                assert(s.subrange(b, i + 1) =~= s.subrange(b, i).push(s[i]));
                if (j + 1) as int <= key@.len() {
                    assert(key@.subrange(0, j + 1) =~= key@.subrange(0, j as int).push(
                        key@[j as int],
                    ));
                }
                if !m && (j + 1) as int <= key@.len() && s.subrange(b, i + 1) == key@.subrange(
                    0,
                    j + 1,
                ) {
                    assert(s.subrange(b, i) =~= s.subrange(b, i + 1).subrange(0, j as int));
                    assert(key@.subrange(0, j as int) =~= key@.subrange(0, j + 1).subrange(
                        0,
                        j as int,
                    ));
                    assert(s[i] == s.subrange(b, i + 1)[j as int]);
                    assert(false);
                }
            }
            j = j + 1;
            self.advance_character();
        }
    }

    /// Skips one string and returns its body, borrowed from the input text
    /// and excluding the surrounding quotes. The cursor is assumed to sit
    /// on the opening quote, which is consumed without inspection. Escapes
    /// inside the extracted string are not supported and fail the scan.
    pub fn advance_and_get_string(&mut self) -> (r: Result<&'a str>)
        requires
            old(self).wf(),
        ensures
            final(self).wf(),
            final(self).text_seq() == old(self).text_seq(),
            old(self).position() <= final(self).position(),
            match raw_scan(old(self).text_seq(), adv(old(self).text_seq(), old(self).position())) {
                Ok(q) => {
                    &&& r matches Ok(sub)
                    &&& sub@ == old(self).text_seq().subrange(
                        adv(old(self).text_seq(), old(self).position()),
                        q,
                    )
                    &&& final(self).position() == adv_token(old(self).text_seq(), q)
                    &&& final(self).normalized()
                },
                Err(err) => r matches Err(e2) && e2 == err,
            },
    {
        let text = self.text;
        let ghost s = self.text@;
        self.advance_character();
        let b = self.pos;
        loop
            invariant
                self.wf(),
                self.text@ == s,
                text@ == s,
                s == old(self).text_seq(),
                b as int == adv(s, old(self).position()),
                old(self).position() <= b as int,
                b as int <= self.pos as int <= s.len(),
                raw_scan(s, b as int) == raw_scan(s, self.pos as int),
            decreases s.len() - self.pos,
        {
            let c = match self.get_char() {
                None => {
                    return Err(Error::UnterminatedString);
                },
                Some(c) => c,
            };
            if c == '"' {
                let q = self.pos;
                self.advance_token();
                return Ok(text.substring_char(b, q));
            }
            if c == '\\' {
                return Err(Error::UnsupportedEscape);
            }
            self.advance_character();
        }
    }

    /// Skips one JSON value, dispatching on the character under the cursor:
    /// an object, a string, or an integer number. At the end of the input
    /// the call succeeds without moving. Booleans, null and nested arrays
    /// are outside this engine's schema and fail with the offending
    /// character, as does anything unrecognized.
    pub fn advance_value(&mut self) -> (r: Result<()>)
        requires
            old(self).wf(),
        ensures
            final(self).wf(),
            final(self).text_seq() == old(self).text_seq(),
            old(self).position() <= final(self).position(),
            match value_end(old(self).text_seq(), old(self).position()) {
                Ok(e) => r is Ok && final(self).position() == e && final(self).normalized(),
                Err(err) => r matches Err(e2) && e2 == err,
            },
        decreases self.text_seq().len() - self.position(), 2int,
    {
        let c = match self.get_char() {
            None => {
                return Ok(());
            },
            Some(c) => c,
        };
        if c == '{' {
            self.advance_object()
        } else if c == '"' {
            self.advance_string()
        } else if c == '-' || digit_char(c) {
            self.advance_number()
        } else {
            Err(Error::UnexpectedValue(c))
        }
    }

    /// Skips one object. The cursor must sit on the opening brace; the scan
    /// walks the keys and values until the matching closing brace.
    pub fn advance_object(&mut self) -> (r: Result<()>)
        requires
            old(self).wf(),
            old(self).current() == Some('{'),
        ensures
            final(self).wf(),
            final(self).text_seq() == old(self).text_seq(),
            old(self).position() <= final(self).position(),
            match object_end(old(self).text_seq(), old(self).position()) {
                Ok(e) => r is Ok && final(self).position() == e && final(self).normalized(),
                Err(err) => r matches Err(e2) && e2 == err,
            },
        decreases self.text_seq().len() - self.position(), 1int,
    {
        let ghost s = self.text@;
        let ghost p0 = self.pos as int;
        self.advance_token();
        loop
            invariant
                self.wf(),
                self.text@ == s,
                s == old(self).text_seq(),
                p0 == old(self).position(),
                0 <= p0 < s.len(),
                p0 < self.pos as int <= s.len(),
                self.normalized(),
                object_end(s, p0) == object_body_end(s, self.pos as int),
            decreases s.len() - self.pos,
        {
            let ghost i = self.pos as int;
            let c = match self.get_char() {
                None => {
                    return Err(Error::UnterminatedObject);
                },
                Some(c) => c,
            };
            if c == '}' {
                self.advance_token();
                return Ok(());
            }
            match self.advance_string() {
                Err(e) => {
                    return Err(e);
                },
                Ok(()) => {},
            }
            let colon_missing = match self.get_char() {
                Some(c2) => c2 != ':',
                None => false,
            };
            if colon_missing {
                return Err(Error::UnterminatedObject);
            }
            self.advance_token();
            match self.advance_value() {
                Err(e) => {
                    return Err(e);
                },
                Ok(()) => {},
            }
            let comma = match self.get_char() {
                Some(c2) => c2 == ',',
                None => false,
            };
            if comma {
                self.advance_token();
            }
        }
    }
}

} // verus!
