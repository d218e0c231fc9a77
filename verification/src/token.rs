//! The eager engine's tokenizer: the input text is cut into spans, one
//! token at a time, before the parser assembles them into a tree.

use vstd::prelude::*;

use crate::scan::{digit_char, is_digit, string_body_end};

verus! {

broadcast use {
    crate::scan::lemma_string_body_end,
};

/// What tokenizing or parsing a document can fail with.
#[derive(Debug, Clone, PartialEq, Eq)]
pub enum Error {
    /// The input ended inside a string.
    UnterminatedString,
    /// A word starting like `null`, `true` or `false` did not spell it out.
    InvalidIdentifier,
    /// A character that cannot start any token.
    InvalidToken,
    /// A token that cannot start a value.
    UnexpectedToken,
    /// No token where a value was expected.
    EmptyJson,
    /// The input ended inside an object.
    UnterminatedJsonObject,
    /// An object entry without a string key, a colon, or a closing brace.
    MalformedJsonObject,
    /// The input ended inside an array.
    UnterminatedJsonArray,
    /// An array without a comma or closing bracket between elements.
    MalformedJsonArray,
    /// The object holds no entry under the requested key.
    KeyNotFound,
    /// The top level of the document is not an array.
    NotAJsonArray,
    /// An array element that is not an object.
    NotAJsonObject,
    /// A key that no field of the expected record matches.
    UnknownField(String),
    /// A value of a kind that has no raw string or number reading.
    InvalidTokenType,
}

/// The kind of a token.
#[derive(Debug, Clone, Copy, PartialEq, Eq, Structural)]
pub enum TokenType {
    Lbrace,
    Rbrace,
    Colon,
    Comma,
    Number,
    String,
    Lbracket,
    Rbracket,
    Null,
    True,
    False,
}

/// A half-open range of character positions in the input text.
#[derive(Debug, Clone, Copy, PartialEq, Eq, Structural)]
pub struct Span(pub usize, pub usize);

impl Span {
    /// The span of the single character at `pos`.
    pub fn at(pos: usize) -> (r: Self)
        requires
            pos < usize::MAX,
        ensures
            r.0 == pos && r.1 == pos + 1,
    {
        Span(pos, pos + 1)
    }

    /// The span from `start` inclusive to `end` exclusive.
    pub fn range(start: usize, end: usize) -> (r: Self)
        ensures
            r.0 == start && r.1 == end,
    {
        Span(start, end)
    }

    /// The smallest span covering both spans.
    pub fn extend(&self, other: &Self) -> (r: Self)
        ensures
            r.0 == if self.0 <= other.0 {
                self.0
            } else {
                other.0
            },
            r.1 == if self.1 >= other.1 {
                self.1
            } else {
                other.1
            },
    {
        let lo = if self.0 <= other.0 {
            self.0
        } else {
            other.0
        };
        let hi = if self.1 >= other.1 {
            self.1
        } else {
            other.1
        };
        Span(lo, hi)
    }
}

/// A token: its span in the input text and its kind.
#[derive(Debug, Clone, Copy, PartialEq, Eq, Structural)]
pub struct Token {
    pub span: Span,
    pub ty: TokenType,
}

/// The whitespace the tokenizer skips between tokens.
pub open spec fn is_tok_ws(c: char) -> bool {
    c == ' ' || c == '\n' || c == '\r' || c == '\t'
}

/// The first position at or after `i` that does not hold tokenizer
/// whitespace.
pub open spec fn tok_ws_end(s: Seq<char>, i: int) -> int
    decreases s.len() - i
        when 0 <= i <= s.len()
{
    if i < s.len() && is_tok_ws(s[i]) {
        tok_ws_end(s, i + 1)
    } else {
        i
    }
}

pub broadcast proof fn lemma_tok_ws_end(s: Seq<char>, i: int)
    requires
        0 <= i <= s.len(),
    ensures
        i <= #[trigger] tok_ws_end(s, i) <= s.len(),
    decreases s.len() - i,
{
    if i < s.len() && is_tok_ws(s[i]) {
        lemma_tok_ws_end(s, i + 1);
    }
}

/// A single character that is a token by itself.
pub open spec fn is_punct(c: char) -> bool {
    c == '{' || c == '}' || c == '[' || c == ']' || c == ':' || c == ','
}

/// The kind of a single-character token.
pub open spec fn punct_ty(c: char) -> TokenType
    recommends
        is_punct(c),
{
    if c == '{' {
        TokenType::Lbrace
    } else if c == '}' {
        TokenType::Rbrace
    } else if c == '[' {
        TokenType::Lbracket
    } else if c == ']' {
        TokenType::Rbracket
    } else if c == ':' {
        TokenType::Colon
    } else {
        TokenType::Comma
    }
}

/// A character that continues a number token.
pub open spec fn is_num_cont(c: char) -> bool {
    is_digit(c) || c == '.' || c == 'e' || c == 'E'
}

/// The first position at or after `i` that does not continue a number.
pub open spec fn num_cont_end(s: Seq<char>, i: int) -> int
    decreases s.len() - i
        when 0 <= i <= s.len()
{
    if i < s.len() && is_num_cont(s[i]) {
        num_cont_end(s, i + 1)
    } else {
        i
    }
}

pub broadcast proof fn lemma_num_cont_end(s: Seq<char>, i: int)
    requires
        0 <= i <= s.len(),
    ensures
        i <= #[trigger] num_cont_end(s, i) <= s.len(),
    decreases s.len() - i,
{
    if i < s.len() && is_num_cont(s[i]) {
        lemma_num_cont_end(s, i + 1);
    }
}

/// The word a keyword token starting with `c` must spell.
pub open spec fn ident_of(c: char) -> Seq<char>
    recommends
        c == 'n' || c == 't' || c == 'f',
{
    if c == 'n' {
        seq!['n', 'u', 'l', 'l']
    } else if c == 't' {
        seq!['t', 'r', 'u', 'e']
    } else {
        seq!['f', 'a', 'l', 's', 'e']
    }
}

/// The kind of the keyword token starting with `c`.
pub open spec fn ident_ty(c: char) -> TokenType
    recommends
        c == 'n' || c == 't' || c == 'f',
{
    if c == 'n' {
        TokenType::Null
    } else if c == 't' {
        TokenType::True
    } else {
        TokenType::False
    }
}

/// The token found at or after position `p0`, once whitespace is skipped:
/// `None` at the end of the input, otherwise the token or the error the
/// tokenizer reports there.
pub open spec fn token_result(s: Seq<char>, p0: int) -> Option<
    core::result::Result<Token, Error>,
>
    recommends
        0 <= p0 <= s.len(),
{
    let j = tok_ws_end(s, p0);
    if j >= s.len() {
        None
    } else {
        let c = s[j];
        if is_punct(c) {
            Some(Ok(Token { span: Span(j as usize, (j + 1) as usize), ty: punct_ty(c) }))
        } else if c == '"' {
            match string_body_end(s, j + 1) {
                Some(q) => Some(
                    Ok(Token { span: Span(j as usize, (q + 1) as usize), ty: TokenType::String }),
                ),
                None => Some(Err(Error::UnterminatedString)),
            }
        } else if c == 'n' || c == 't' || c == 'f' {
            let w = ident_of(c);
            if j + w.len() <= s.len() && s.subrange(j, j + w.len() as int) == w {
                Some(
                    Ok(
                        Token {
                            span: Span(j as usize, (j + w.len()) as usize),
                            ty: ident_ty(c),
                        },
                    ),
                )
            } else {
                Some(Err(Error::InvalidIdentifier))
            }
        } else if is_digit(c) || c == '-' {
            Some(
                Ok(
                    Token {
                        span: Span(j as usize, num_cont_end(s, j + 1) as usize),
                        ty: TokenType::Number,
                    },
                ),
            )
        } else {
            Some(Err(Error::InvalidToken))
        }
    }
}

/// Cuts the input text into tokens, one call at a time.
#[derive(Clone, Copy)]
pub struct TokenIter<'a> {
    text: &'a str,
    pos: usize,
    len: usize,
}

/// A well-formed iterator's position lies within its text.
pub broadcast proof fn lemma_iter_wf_bounds<'a>(it: TokenIter<'a>)
    ensures
        #[trigger] it.wf() ==> 0 <= it.position() <= it.text_seq().len() <= usize::MAX,
{
}

impl<'a> TokenIter<'a> {
    /// The characters of the input text.
    pub closed spec fn text_seq(self) -> Seq<char> {
        self.text@
    }

    /// The position of the next uncut character.
    pub closed spec fn position(self) -> int {
        self.pos as int
    }

    /// The cached length matches the text and the position is in bounds.
    pub closed spec fn wf(self) -> bool {
        self.len == self.text@.len() && self.pos <= self.len
    }

    /// Opens a tokenizer at the start of the text.
    pub fn new(s: &'a str) -> (it: Self)
        ensures
            it.wf(),
            it.text_seq() == s@,
            it.position() == 0,
    {
        TokenIter { text: s, pos: 0, len: s.unicode_len() }
    }

    /// Cuts the next token and consumes it. `None` means the input is
    /// exhausted; a token error leaves the iterator where the error was
    /// found.
    pub fn next(&mut self) -> (r: Option<core::result::Result<Token, Error>>)
        requires
            old(self).wf(),
        ensures
            final(self).wf(),
            final(self).text_seq() == old(self).text_seq(),
            old(self).position() <= final(self).position(),
            r == token_result(old(self).text_seq(), old(self).position()),
            r is None ==> final(self).position() == old(self).text_seq().len(),
            (r matches Some(Ok(t)) ==> {
                &&& final(self).position() == t.span.1
                &&& old(self).position() < t.span.1 <= old(self).text_seq().len()
                &&& t.span.0 < t.span.1
            }),
    {
        let ghost s = self.text@;
        let ghost p0 = self.pos as int;
        while self.pos < self.len && tok_ws_char(self.text.get_char(self.pos))
            invariant
                self.wf(),
                self.text@ == s,
                p0 <= self.pos as int <= s.len(),
                tok_ws_end(s, p0) == tok_ws_end(s, self.pos as int),
            decreases self.len - self.pos,
        {
            self.pos = self.pos + 1;
        }
        if self.pos >= self.len {
            return None;
        }
        let c = self.text.get_char(self.pos);
        if c == '{' || c == '}' || c == '[' || c == ']' || c == ':' || c == ',' {
            let t = Token { span: Span::at(self.pos), ty: char_to_token_type(c) };
            self.pos = self.pos + 1;
            return Some(Ok(t));
        }
        if c == '"' {
            return Some(self.next_string());
        }
        if c == 'n' {
            proof {
                reveal_strlit("null");
                assert("null"@ =~= seq!['n', 'u', 'l', 'l']);
            }
            return Some(self.next_ident("null"));
        }
        if c == 't' {
            proof {
                reveal_strlit("true");
                assert("true"@ =~= seq!['t', 'r', 'u', 'e']);
            }
            return Some(self.next_ident("true"));
        }
        if c == 'f' {
            proof {
                reveal_strlit("false");
                assert("false"@ =~= seq!['f', 'a', 'l', 's', 'e']);
            }
            return Some(self.next_ident("false"));
        }
        if digit_char(c) || c == '-' {
            return Some(self.next_number());
        }
        Some(Err(Error::InvalidToken))
    }

    /// Cuts the next token without consuming it.
    pub fn peek(&self) -> (r: Option<core::result::Result<Token, Error>>)
        requires
            self.wf(),
        ensures
            r == token_result(self.text_seq(), self.position()),
    {
        let mut probe = *self;
        probe.next()
    }

    /// Cuts a string token. The iterator is assumed to sit on the opening
    /// quote, which is consumed without inspection; the scan then runs to
    /// the closing unescaped quote.
    fn next_string(&mut self) -> (r: core::result::Result<Token, Error>)
        requires
            old(self).wf(),
            old(self).position() < old(self).text_seq().len(),
        ensures
            final(self).wf(),
            final(self).text_seq() == old(self).text_seq(),
            old(self).position() < final(self).position(),
            match string_body_end(old(self).text_seq(), old(self).position() + 1) {
                Some(q) => {
                    &&& r matches Ok(t)
                    &&& t.ty == TokenType::String
                    &&& t.span.0 == old(self).position()
                    &&& t.span.1 == q + 1
                    &&& final(self).position() == q + 1
                },
                None => {
                    &&& r matches Err(e)
                    &&& e == Error::UnterminatedString
                    &&& final(self).position() == old(self).text_seq().len()
                },
            },
    {
        let ghost s = self.text@;
        let start = self.pos;
        let ghost b = start as int + 1;
        self.pos = self.pos + 1;
        loop
            invariant
                self.wf(),
                self.text@ == s,
                s == old(self).text_seq(),
                start as int == old(self).position(),
                start as int + 1 == b,
                b <= self.pos as int <= s.len(),
                string_body_end(s, b) == string_body_end(s, self.pos as int),
            decreases s.len() - self.pos,
        {
            if self.pos >= self.len {
                return Err(Error::UnterminatedString);
            }
            let c = self.text.get_char(self.pos);
            if c == '"' {
                self.pos = self.pos + 1;
                return Ok(Token { span: Span::range(start, self.pos), ty: TokenType::String });
            }
            if c == '\\' {
                self.pos = self.pos + 1;
                let u = if self.pos < self.len {
                    self.text.get_char(self.pos) == 'u'
                } else {
                    false
                };
                if self.pos < self.len {
                    self.pos = self.pos + 1;
                }
                if u {
                    if self.pos < self.len {
                        self.pos = self.pos + 1;
                    }
                    if self.pos < self.len {
                        self.pos = self.pos + 1;
                    }
                    if self.pos < self.len {
                        self.pos = self.pos + 1;
                    }
                    if self.pos < self.len {
                        self.pos = self.pos + 1;
                    }
                }
            } else {
                self.pos = self.pos + 1;
            }
        }
    }

    /// Cuts a number token. The iterator is assumed to sit on the leading
    /// digit or minus sign, which is consumed without inspection; characters
    /// that continue a number are then consumed.
    fn next_number(&mut self) -> (r: core::result::Result<Token, Error>)
        requires
            old(self).wf(),
            old(self).position() < old(self).text_seq().len(),
        ensures
            final(self).wf(),
            final(self).text_seq() == old(self).text_seq(),
            old(self).position() < final(self).position(),
            r matches Ok(t) && t.ty == TokenType::Number && t.span.0 == old(self).position()
                && t.span.1 == num_cont_end(old(self).text_seq(), old(self).position() + 1)
                && final(self).position() == t.span.1,
    {
        let ghost s = self.text@;
        let start = self.pos;
        self.pos = self.pos + 1;
        while self.pos < self.len && num_cont_char(self.text.get_char(self.pos))
            invariant
                self.wf(),
                self.text@ == s,
                start as int + 1 <= self.pos as int <= s.len(),
                num_cont_end(s, start as int + 1) == num_cont_end(s, self.pos as int),
            decreases self.len - self.pos,
        {
            self.pos = self.pos + 1;
        }
        Ok(Token { span: Span::range(start, self.pos), ty: TokenType::Number })
    }

    /// Cuts a keyword token: the characters at the iterator must spell
    /// `ident` exactly. On a mismatch the iterator is left where the
    /// mismatch was found.
    fn next_ident(&mut self, ident: &str) -> (r: core::result::Result<Token, Error>)
        requires
            old(self).wf(),
            old(self).position() < old(self).text_seq().len(),
            0 < ident@.len(),
            ident@ == seq!['n', 'u', 'l', 'l'] || ident@ == seq!['t', 'r', 'u', 'e'] || ident@
                == seq!['f', 'a', 'l', 's', 'e'],
        ensures
            final(self).wf(),
            final(self).text_seq() == old(self).text_seq(),
            old(self).position() <= final(self).position(),
            ({
                let s = old(self).text_seq();
                let j = old(self).position();
                let w = ident@;
                if j + w.len() <= s.len() && s.subrange(j, j + w.len() as int) == w {
                    &&& r matches Ok(t)
                    &&& t.ty == ident_ty(w[0])
                    &&& t.span.0 == j
                    &&& t.span.1 == j + w.len()
                    &&& final(self).position() == j + w.len()
                } else {
                    r matches Err(e) && e == Error::InvalidIdentifier
                }
            }),
    {
        let ghost s = self.text@;
        let ghost j = self.pos as int;
        let start = self.pos;
        let ident_len = ident.unicode_len();
        let mut k: usize = 0;
        while k < ident_len
            invariant
                self.wf(),
                self.text@ == s,
                s == old(self).text_seq(),
                j == old(self).position(),
                ident_len == ident@.len(),
                start as int == j,
                0 <= k <= ident_len,
                self.pos as int == j + k,
                j + k <= s.len(),
                s.subrange(j, j + k) == ident@.subrange(0, k as int),
            decreases ident_len - k,
        {
            if self.pos >= self.len {
                proof {
                    lemma_prefix_neq(s, ident@, j, k as int);
                }
                return Err(Error::InvalidIdentifier);
            }
            let c = self.text.get_char(self.pos);
            let w = ident.get_char(k);
            if c != w {
                proof {
                    lemma_prefix_neq(s, ident@, j, k as int);
                }
                return Err(Error::InvalidIdentifier);
            }
            proof {
                assert(s.subrange(j, j + k + 1) =~= s.subrange(j, j + k).push(s[j + k]));
                assert(ident@.subrange(0, k + 1) =~= ident@.subrange(0, k as int).push(
                    ident@[k as int],
                ));
            }
            self.pos = self.pos + 1;
            k = k + 1;
        }
        proof {
            assert(ident@.subrange(0, ident@.len() as int) =~= ident@);
        }
        Ok(Token { span: Span::range(start, self.pos), ty: ident_to_token_type(ident) })
    }
}

/// If the text under `j` matches only `k` of `w`'s characters and stops
/// there, it does not spell out all of `w`.
proof fn lemma_prefix_neq(s: Seq<char>, w: Seq<char>, j: int, k: int)
    requires
        0 <= j,
        0 <= k < w.len(),
        j + k <= s.len(),
        s.subrange(j, j + k) == w.subrange(0, k),
        j + k >= s.len() || (j + k < s.len() && s[j + k] != w[k]),
    ensures
        !(j + w.len() <= s.len() && s.subrange(j, j + w.len()) == w),
{
    if j + w.len() <= s.len() && s.subrange(j, j + w.len()) == w {
        assert(s[j + k] == s.subrange(j, j + w.len())[k]);
    }
}

/// The kind of the single-character token `c`, decided in executable code.
pub fn char_to_token_type(c: char) -> (ty: TokenType)
    requires
        is_punct(c),
    ensures
        ty == punct_ty(c),
{
    if c == '{' {
        TokenType::Lbrace
    } else if c == '}' {
        TokenType::Rbrace
    } else if c == '[' {
        TokenType::Lbracket
    } else if c == ']' {
        TokenType::Rbracket
    } else if c == ':' {
        TokenType::Colon
    } else {
        TokenType::Comma
    }
}

/// The kind of the keyword `ident`, decided in executable code by its
/// first character.
pub fn ident_to_token_type(ident: &str) -> (ty: TokenType)
    requires
        ident@ == seq!['n', 'u', 'l', 'l'] || ident@ == seq!['t', 'r', 'u', 'e'] || ident@
            == seq!['f', 'a', 'l', 's', 'e'],
    ensures
        ty == ident_ty(ident@[0]),
{
    let c = ident.get_char(0);
    if c == 'n' {
        TokenType::Null
    } else if c == 't' {
        TokenType::True
    } else {
        TokenType::False
    }
}


/// Whether `c` is tokenizer whitespace, decided in executable code.
pub fn tok_ws_char(c: char) -> (b: bool)
    ensures
        b == is_tok_ws(c),
{
    c == ' ' || c == '\n' || c == '\r' || c == '\t'
}

/// Whether `c` continues a number token, decided in executable code.
pub fn num_cont_char(c: char) -> (b: bool)
    ensures
        b == is_num_cont(c),
{
    digit_char(c) || c == '.' || c == 'e' || c == 'E'
}

} // verus!
