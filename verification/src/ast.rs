//! The eager engine's parser: a recursive descent over the token stream
//! that builds an abstract syntax tree of spans into the input text. The
//! tree holds no text of its own; every reading of a value goes back to the
//! input text through its span.

use vstd::prelude::*;

use crate::scan::{is_digit, string_body_end};

use crate::token::{
    num_cont_end, token_result, tok_ws_end, Error, Span, Token, TokenIter, TokenType,
};

verus! {

broadcast use {
    crate::scan::lemma_string_body_end,
    crate::token::lemma_tok_ws_end,
    crate::token::lemma_num_cont_end,
    crate::token::lemma_iter_wf_bounds,
};

/// `x` forced into the range from `lo` to `hi`.
pub open spec fn clampi(x: int, lo: int, hi: int) -> int {
    let y = if x < lo {
        lo
    } else {
        x
    };
    if y > hi {
        hi
    } else {
        y
    }
}

/// Where the parse of one value ends, with the token stream starting at
/// `p`: the position after the value's last token, or the error the parse
/// reports. A value is one scalar token, or an object or array with its
/// nested values.
pub open spec fn parse_value_end(s: Seq<char>, p: int) -> core::result::Result<int, Error>
    decreases s.len() - p, 0int
        when 0 <= p <= s.len()
{
    proof {
        crate::token::lemma_tok_ws_end(s, p);
    }
    match token_result(s, p) {
        None => Err(Error::EmptyJson),
        Some(Err(e)) => Err(e),
        Some(Ok(t)) => {
            let p1 = clampi(t.span.1 as int, p + 1, s.len() as int);
            if t.ty == TokenType::Number || t.ty == TokenType::String || t.ty == TokenType::Null
                || t.ty == TokenType::True || t.ty == TokenType::False {
                Ok(p1)
            } else if t.ty == TokenType::Lbrace {
                match token_result(s, p1) {
                    None => Err(Error::UnterminatedJsonObject),
                    Some(Err(e)) => Err(e),
                    Some(Ok(t2)) => {
                        if t2.ty == TokenType::Rbrace {
                            Ok(t2.span.1 as int)
                        } else {
                            parse_object_items_end(s, p1)
                        }
                    },
                }
            } else if t.ty == TokenType::Lbracket {
                match token_result(s, p1) {
                    None => Err(Error::UnterminatedJsonArray),
                    Some(Err(e)) => Err(e),
                    Some(Ok(t2)) => {
                        if t2.ty == TokenType::Rbracket {
                            Ok(t2.span.1 as int)
                        } else {
                            parse_array_items_end(s, p1)
                        }
                    },
                }
            } else {
                Err(Error::UnexpectedToken)
            }
        },
    }
}

/// Where the parse of an object's entries ends, with the token stream
/// starting at `p` on the first key. Each round reads a string key, a
/// colon, one value, and a comma or the closing brace.
pub open spec fn parse_object_items_end(s: Seq<char>, p: int) -> core::result::Result<int, Error>
    decreases s.len() - p, 1int
        when 0 <= p <= s.len()
{
    proof {
        crate::token::lemma_tok_ws_end(s, p);
    }
    match token_result(s, p) {
        None => Err(Error::UnterminatedJsonObject),
        Some(Err(e)) => Err(e),
        Some(Ok(key)) => {
            if key.ty != TokenType::String {
                Err(Error::MalformedJsonObject)
            } else {
                let p1 = clampi(key.span.1 as int, p + 1, s.len() as int);
                match token_result(s, p1) {
                    None => Err(Error::UnterminatedJsonObject),
                    Some(Err(e)) => Err(e),
                    Some(Ok(colon)) => {
                        if colon.ty != TokenType::Colon {
                            Err(Error::MalformedJsonObject)
                        } else {
                            let p2 = clampi(colon.span.1 as int, p1 + 1, s.len() as int);
                            match parse_value_end(s, p2) {
                                Err(e) => Err(e),
                                Ok(q0) => {
                                    let q = clampi(q0, p2, s.len() as int);
                                    proof {
                                        crate::token::lemma_tok_ws_end(s, q);
                                    }
                                    match token_result(s, q) {
                                        None => Err(Error::UnterminatedJsonObject),
                                        Some(Err(e)) => Err(e),
                                        Some(Ok(sep)) => {
                                            if sep.ty == TokenType::Comma {
                                                parse_object_items_end(
                                                    s,
                                                    clampi(
                                                        sep.span.1 as int,
                                                        q + 1,
                                                        s.len() as int,
                                                    ),
                                                )
                                            } else if sep.ty == TokenType::Rbrace {
                                                Ok(sep.span.1 as int)
                                            } else {
                                                Err(Error::MalformedJsonObject)
                                            }
                                        },
                                    }
                                },
                            }
                        }
                    },
                }
            }
        },
    }
}

/// Where the parse of an array's elements ends, with the token stream
/// starting at `p` on the first element. Each round parses one value and a
/// comma or the closing bracket.
pub open spec fn parse_array_items_end(s: Seq<char>, p: int) -> core::result::Result<int, Error>
    decreases s.len() - p, 1int
        when 0 <= p <= s.len()
{
    if p >= s.len() {
        Err(Error::EmptyJson)
    } else {
        match parse_value_end(s, p) {
            Err(e) => Err(e),
            Ok(q0) => {
                let q = clampi(q0, p + 1, s.len() as int);
                proof {
                    crate::token::lemma_tok_ws_end(s, q);
                }
                match token_result(s, q) {
                    None => Err(Error::UnterminatedJsonArray),
                    Some(Err(e)) => Err(e),
                    Some(Ok(sep)) => {
                        if sep.ty == TokenType::Rbracket {
                            Ok(sep.span.1 as int)
                        } else if sep.ty == TokenType::Comma {
                            parse_array_items_end(s, clampi(sep.span.1 as int, q + 1, s.len() as int))
                        } else {
                            Err(Error::MalformedJsonArray)
                        }
                    },
                }
            },
        }
    }
}

/// The rest of a list, with `pre` in front; nothing stays nothing.
pub open spec fn opt_prepend<T>(pre: Seq<T>, rest: Option<Seq<T>>) -> Option<Seq<T>> {
    match rest {
        Some(r) => Some(pre + r),
        None => None,
    }
}

/// The entries an object's token stream yields, scanning from `p` on the
/// first key to the closing brace: for each entry its key token, the
/// position its value starts to parse at, and the position the value ends
/// at. `None` when the stream does not form object entries.
pub open spec fn obj_entry_list(s: Seq<char>, p: int) -> Option<Seq<(Token, int, int)>>
    decreases s.len() - p
        when 0 <= p <= s.len()
{
    proof {
        crate::token::lemma_tok_ws_end(s, p);
    }
    match token_result(s, p) {
        None => None,
        Some(Err(e)) => None,
        Some(Ok(key)) => {
            if key.ty != TokenType::String {
                None
            } else {
                let p1 = clampi(key.span.1 as int, p + 1, s.len() as int);
                match token_result(s, p1) {
                    None => None,
                    Some(Err(e)) => None,
                    Some(Ok(colon)) => {
                        if colon.ty != TokenType::Colon {
                            None
                        } else {
                            let p2 = clampi(colon.span.1 as int, p1 + 1, s.len() as int);
                            match parse_value_end(s, p2) {
                                Err(e) => None,
                                Ok(q0) => {
                                    let q = clampi(q0, p2, s.len() as int);
                                    proof {
                                        crate::token::lemma_tok_ws_end(s, q);
                                    }
                                    match token_result(s, q) {
                                        None => None,
                                        Some(Err(e)) => None,
                                        Some(Ok(sep)) => {
                                            if sep.ty == TokenType::Comma {
                                                opt_prepend(
                                                    seq![(key, p2, q0)],
                                                    obj_entry_list(
                                                        s,
                                                        clampi(
                                                            sep.span.1 as int,
                                                            q + 1,
                                                            s.len() as int,
                                                        ),
                                                    ),
                                                )
                                            } else if sep.ty == TokenType::Rbrace {
                                                Some(seq![(key, p2, q0)])
                                            } else {
                                                None
                                            }
                                        },
                                    }
                                },
                            }
                        }
                    },
                }
            }
        },
    }
}

/// The elements an array's token stream yields, scanning from `p` on the
/// first element to the closing bracket: for each element the position it
/// starts to parse at and the position it ends at. `None` when the stream
/// does not form array elements.
pub open spec fn arr_item_list(s: Seq<char>, p: int) -> Option<Seq<(int, int)>>
    decreases s.len() - p
        when 0 <= p <= s.len()
{
    if p >= s.len() {
        None
    } else {
        match parse_value_end(s, p) {
            Err(e) => None,
            Ok(q0) => {
                let q = clampi(q0, p + 1, s.len() as int);
                proof {
                    crate::token::lemma_tok_ws_end(s, q);
                }
                match token_result(s, q) {
                    None => None,
                    Some(Err(e)) => None,
                    Some(Ok(sep)) => {
                        if sep.ty == TokenType::Rbracket {
                            Some(seq![(p, q0)])
                        } else if sep.ty == TokenType::Comma {
                            opt_prepend(
                                seq![(p, q0)],
                                arr_item_list(s, clampi(sep.span.1 as int, q + 1, s.len() as int)),
                            )
                        } else {
                            None
                        }
                    },
                }
            },
        }
    }
}

/// A JSON object as a tree node: its span and its entries in order.
#[derive(Debug)]
pub struct ObjectAst {
    pub span: Span,
    pub elems: Vec<(StringAst, ValueAst)>,
}

/// A JSON array as a tree node: its span and its elements in order.
#[derive(Debug)]
pub struct ArrayAst {
    pub span: Span,
    pub elems: Vec<ValueAst>,
}

/// A JSON number as a tree node.
#[derive(Debug, Clone)]
pub struct NumberAst(pub Token);

/// A JSON string as a tree node.
#[derive(Debug, Clone)]
pub struct StringAst(pub Token);

/// A JSON null as a tree node.
#[derive(Debug, Clone)]
pub struct NullAst(pub Token);

/// A JSON boolean as a tree node.
#[derive(Debug, Clone)]
pub struct BoolAst(pub Token);

/// A JSON value as a tree node.
#[derive(Debug)]
pub enum ValueAst {
    Object(ObjectAst),
    Array(ArrayAst),
    Number(NumberAst),
    String(StringAst),
    Null(NullAst),
    Bool(BoolAst),
}

/// A nonempty span that lies within the text.
pub open spec fn span_in(sp: Span, s: Seq<char>) -> bool {
    sp.0 < sp.1 <= s.len()
}

/// A string token's span covers its two quotes, so its body can be cut out.
pub open spec fn string_token_wf(t: Token, s: Seq<char>) -> bool {
    t.ty == TokenType::String && t.span.0 + 2 <= t.span.1 <= s.len()
}

/// The body of the string under token `t`: its span without the quotes.
pub open spec fn string_value(t: StringAst, s: Seq<char>) -> Seq<char>
    recommends
        string_token_wf(t.0, s),
{
    s.subrange(t.0.span.0 + 1, t.0.span.1 - 1)
}

/// Every node of the tree carries a token kind that fits its variant and a
/// span that lies within the text; string spans also cover their quotes.
pub open spec fn value_wf(v: ValueAst, s: Seq<char>) -> bool
    decreases v, 0int,
{
    match v {
        ValueAst::Object(o) => span_in(o.span, s) && obj_elems_wf(o, s, 0),
        ValueAst::Array(a) => span_in(a.span, s) && arr_elems_wf(a, s, 0),
        ValueAst::Number(n) => span_in(n.0.span, s) && n.0.ty == TokenType::Number,
        ValueAst::String(t) => string_token_wf(t.0, s),
        ValueAst::Null(n) => span_in(n.0.span, s) && n.0.ty == TokenType::Null,
        ValueAst::Bool(b) => span_in(b.0.span, s) && (b.0.ty == TokenType::True || b.0.ty
            == TokenType::False),
    }
}

/// The entries of `o` from index `i` on are well formed: string keys with
/// quote-covering spans, and well-formed values.
pub open spec fn obj_elems_wf(o: ObjectAst, s: Seq<char>, i: int) -> bool
    decreases o, o.elems@.len() - i,
{
    i >= o.elems@.len() || (0 <= i && string_token_wf(o.elems@[i].0.0, s) && value_wf(
        o.elems@[i].1,
        s,
    ) && obj_elems_wf(o, s, i + 1))
}

/// The elements of `a` from index `i` on are well formed.
pub open spec fn arr_elems_wf(a: ArrayAst, s: Seq<char>, i: int) -> bool
    decreases a, a.elems@.len() - i,
{
    i >= a.elems@.len() || (0 <= i && value_wf(a.elems@[i], s) && arr_elems_wf(a, s, i + 1))
}

/// One object entry is well formed: a string key with a quote-covering
/// span, and a well-formed value.
pub open spec fn entry_wf(e: (StringAst, ValueAst), s: Seq<char>) -> bool {
    string_token_wf(e.0.0, s) && value_wf(e.1, s)
}

/// A number token's span points at a number in the text: it starts on a
/// digit or minus sign and runs to the end of the maximal run of number
/// characters behind it.
pub open spec fn num_token_at(t: Token, s: Seq<char>) -> bool {
    &&& t.span.0 < s.len()
    &&& is_digit(s[t.span.0 as int]) || s[t.span.0 as int] == '-'
    &&& t.span.1 == num_cont_end(s, t.span.0 + 1)
}

/// A string token's span points at a quote-delimited string in the text.
pub open spec fn quoted_at(t: Token, s: Seq<char>) -> bool {
    &&& t.span.0 + 2 <= t.span.1 <= s.len()
    &&& s[t.span.0 as int] == '"'
    &&& s[t.span.1 - 1] == '"'
}

/// A keyword token's span points at exactly the word `w` in the text.
pub open spec fn word_at(t: Token, s: Seq<char>, w: Seq<char>) -> bool {
    &&& t.span.0 <= t.span.1 <= s.len()
    &&& s.subrange(t.span.0 as int, t.span.1 as int) == w
}

/// The tree under `v` is placed in the text: each leaf's span points at
/// text of the leaf's kind, each child lies strictly inside its parent's
/// span, and children follow one another from left to right.
pub open spec fn value_placed(v: ValueAst, s: Seq<char>) -> bool
    decreases v, 0int,
{
    match v {
        ValueAst::Object(o) => obj_placed(o, s, 0, o.span.0 + 1),
        ValueAst::Array(a) => arr_placed(a, s, 0, a.span.0 + 1),
        ValueAst::Number(n) => num_token_at(n.0, s),
        ValueAst::String(t) => quoted_at(t.0, s),
        ValueAst::Null(n) => word_at(n.0, s, seq!['n', 'u', 'l', 'l']),
        ValueAst::Bool(b) => if b.0.ty == TokenType::True {
            word_at(b.0, s, seq!['t', 'r', 'u', 'e'])
        } else {
            word_at(b.0, s, seq!['f', 'a', 'l', 's', 'e'])
        },
    }
}

/// The entries of `o` from `i` on are placed: the quoted key at or after
/// `lo`, the value behind the key's colon, the closing brace behind the
/// last value, and every later entry behind this one.
pub open spec fn obj_placed(o: ObjectAst, s: Seq<char>, i: int, lo: int) -> bool
    decreases o, o.elems@.len() - i,
{
    i >= o.elems@.len() || (0 <= i && {
        let key = o.elems@[i].0.0;
        let val = ast_span(o.elems@[i].1);
        &&& lo <= key.span.0
        &&& quoted_at(key, s)
        &&& key.span.1 < val.0
        &&& val.1 < o.span.1
        &&& value_placed(o.elems@[i].1, s)
        &&& obj_placed(o, s, i + 1, val.1 + 1)
    })
}

/// The elements of `a` from `i` on are placed: each at or after `lo`,
/// before the closing bracket, and every later element behind this one.
pub open spec fn arr_placed(a: ArrayAst, s: Seq<char>, i: int, lo: int) -> bool
    decreases a, a.elems@.len() - i,
{
    i >= a.elems@.len() || (0 <= i && {
        let sp = ast_span(a.elems@[i]);
        &&& lo <= sp.0
        &&& sp.1 < a.span.1
        &&& value_placed(a.elems@[i], s)
        &&& arr_placed(a, s, i + 1, sp.1 + 1)
    })
}

/// The entries of `es` from `i` on follow one another: the quoted key at
/// or after `lo`, the value behind its key, every span ending by `hi`,
/// every subtree placed.
spec fn entries_chained(
    es: Seq<(StringAst, ValueAst)>,
    s: Seq<char>,
    i: int,
    lo: int,
    hi: int,
) -> bool
    decreases es.len() - i
        when 0 <= i <= es.len()
{
    i >= es.len() || ({
        let key = es[i].0.0;
        let val = ast_span(es[i].1);
        &&& lo <= key.span.0
        &&& quoted_at(key, s)
        &&& key.span.1 < val.0
        &&& val.1 <= hi
        &&& value_placed(es[i].1, s)
        &&& entries_chained(es, s, i + 1, val.1 + 1, hi)
    })
}

/// The elements of `es` from `i` on follow one another: each at or after
/// `lo`, every span ending by `hi`, every subtree placed.
spec fn items_chained(es: Seq<ValueAst>, s: Seq<char>, i: int, lo: int, hi: int) -> bool
    decreases es.len() - i
        when 0 <= i <= es.len()
{
    i >= es.len() || ({
        let sp = ast_span(es[i]);
        &&& lo <= sp.0
        &&& sp.1 <= hi
        &&& value_placed(es[i], s)
        &&& items_chained(es, s, i + 1, sp.1 + 1, hi)
    })
}

/// A chain stays a chain when its bound is relaxed.
proof fn lemma_entries_chained_widen(
    es: Seq<(StringAst, ValueAst)>,
    s: Seq<char>,
    i: int,
    lo: int,
    hi: int,
    hi2: int,
)
    requires
        0 <= i <= es.len(),
        entries_chained(es, s, i, lo, hi),
        hi <= hi2,
    ensures
        entries_chained(es, s, i, lo, hi2),
    decreases es.len() - i,
{
    if i < es.len() {
        lemma_entries_chained_widen(es, s, i + 1, ast_span(es[i].1).1 + 1, hi, hi2);
    }
}

/// A chain stays a chain when its bound is relaxed.
proof fn lemma_items_chained_widen(
    es: Seq<ValueAst>,
    s: Seq<char>,
    i: int,
    lo: int,
    hi: int,
    hi2: int,
)
    requires
        0 <= i <= es.len(),
        items_chained(es, s, i, lo, hi),
        hi <= hi2,
    ensures
        items_chained(es, s, i, lo, hi2),
    decreases es.len() - i,
{
    if i < es.len() {
        lemma_items_chained_widen(es, s, i + 1, ast_span(es[i]).1 + 1, hi, hi2);
    }
}

/// Appending an entry that starts past the chain's bound keeps the chain.
proof fn lemma_entries_chained_push(
    es: Seq<(StringAst, ValueAst)>,
    s: Seq<char>,
    i: int,
    lo: int,
    hi: int,
    x: (StringAst, ValueAst),
)
    requires
        0 <= i <= es.len(),
        entries_chained(es, s, i, lo, hi),
        lo <= x.0.0.span.0,
        hi < x.0.0.span.0,
        hi <= ast_span(x.1).1,
        quoted_at(x.0.0, s),
        x.0.0.span.1 < ast_span(x.1).0,
        value_placed(x.1, s),
    ensures
        entries_chained(es.push(x), s, i, lo, ast_span(x.1).1 as int),
    decreases es.len() - i,
{
    if i >= es.len() {
        assert(es.push(x)[i] == x);
        assert(es.push(x).len() == es.len() + 1);
        assert(entries_chained(
            es.push(x),
            s,
            i + 1,
            ast_span(x.1).1 + 1,
            ast_span(x.1).1 as int,
        ));
    } else {
        assert(es.push(x)[i] == es[i]);
        assert(entries_chained(es, s, i + 1, ast_span(es[i].1).1 + 1, hi));
        lemma_entries_chained_push(es, s, i + 1, ast_span(es[i].1).1 + 1, hi, x);
    }
}

/// Appending an element that starts past the chain's bound keeps the chain.
proof fn lemma_items_chained_push(es: Seq<ValueAst>, s: Seq<char>, i: int, lo: int, hi: int, x: ValueAst)
    requires
        0 <= i <= es.len(),
        items_chained(es, s, i, lo, hi),
        lo <= ast_span(x).0,
        hi < ast_span(x).0,
        hi <= ast_span(x).1,
        value_placed(x, s),
    ensures
        items_chained(es.push(x), s, i, lo, ast_span(x).1 as int),
    decreases es.len() - i,
{
    if i >= es.len() {
        assert(es.push(x)[i] == x);
        assert(es.push(x).len() == es.len() + 1);
        assert(items_chained(es.push(x), s, i + 1, ast_span(x).1 + 1, ast_span(x).1 as int));
    } else {
        assert(es.push(x)[i] == es[i]);
        assert(items_chained(es, s, i + 1, ast_span(es[i]).1 + 1, hi));
        lemma_items_chained_push(es, s, i + 1, ast_span(es[i]).1 + 1, hi, x);
    }
}

/// A chain bounded before the closing brace makes the object placed.
proof fn lemma_entries_chained_placed(o: ObjectAst, s: Seq<char>, i: int, lo: int)
    requires
        0 <= i <= o.elems@.len(),
        entries_chained(o.elems@, s, i, lo, o.span.1 - 1),
    ensures
        obj_placed(o, s, i, lo),
    decreases o.elems@.len() - i,
{
    if i < o.elems@.len() {
        lemma_entries_chained_placed(o, s, i + 1, ast_span(o.elems@[i].1).1 + 1);
    }
}

/// A chain bounded before the closing bracket makes the array placed.
proof fn lemma_items_chained_placed(a: ArrayAst, s: Seq<char>, i: int, lo: int)
    requires
        0 <= i <= a.elems@.len(),
        items_chained(a.elems@, s, i, lo, a.span.1 - 1),
    ensures
        arr_placed(a, s, i, lo),
    decreases a.elems@.len() - i,
{
    if i < a.elems@.len() {
        lemma_items_chained_placed(a, s, i + 1, ast_span(a.elems@[i]).1 + 1);
    }
}

/// Entry-wise well-formedness gives the recursive form, and back.
pub proof fn lemma_obj_elems_wf(o: ObjectAst, s: Seq<char>, i: int)
    requires
        0 <= i <= o.elems@.len(),
    ensures
        obj_elems_wf(o, s, i) <==> (forall|k: int|
            i <= k < o.elems@.len() ==> #[trigger] entry_wf(o.elems@[k], s)),
    decreases o.elems@.len() - i,
{
    if i < o.elems@.len() {
        lemma_obj_elems_wf(o, s, i + 1);
        if obj_elems_wf(o, s, i) {
            assert forall|k: int|
                i <= k < o.elems@.len() implies #[trigger] entry_wf(o.elems@[k], s) by {
                if k > i {
                    assert(entry_wf(o.elems@[k], s));
                }
            }
        }
        if forall|k: int| i <= k < o.elems@.len() ==> #[trigger] entry_wf(o.elems@[k], s) {
            assert(entry_wf(o.elems@[i], s));
            assert(forall|k: int|
                i + 1 <= k < o.elems@.len() ==> #[trigger] entry_wf(o.elems@[k], s));
            assert(obj_elems_wf(o, s, i + 1));
            assert(obj_elems_wf(o, s, i));
        }
    }
}

/// Element-wise well-formedness gives the recursive form, and back.
pub proof fn lemma_arr_elems_wf(a: ArrayAst, s: Seq<char>, i: int)
    requires
        0 <= i <= a.elems@.len(),
    ensures
        arr_elems_wf(a, s, i) <==> (forall|k: int|
            i <= k < a.elems@.len() ==> #[trigger] value_wf(a.elems@[k], s)),
    decreases a.elems@.len() - i,
{
    if i < a.elems@.len() {
        lemma_arr_elems_wf(a, s, i + 1);
        if arr_elems_wf(a, s, i) {
            assert forall|k: int|
                i <= k < a.elems@.len() implies #[trigger] value_wf(a.elems@[k], s) by {
                if k > i {
                    assert(value_wf(a.elems@[k], s));
                }
            }
        }
        if forall|k: int| i <= k < a.elems@.len() ==> #[trigger] value_wf(a.elems@[k], s) {
            assert(value_wf(a.elems@[i], s));
            assert(forall|k: int|
                i + 1 <= k < a.elems@.len() ==> #[trigger] value_wf(a.elems@[k], s));
            assert(arr_elems_wf(a, s, i + 1));
            assert(arr_elems_wf(a, s, i));
        }
    }
}

/// The span of a tree node.
pub open spec fn ast_span(v: ValueAst) -> Span {
    match v {
        ValueAst::Object(o) => o.span,
        ValueAst::Array(a) => a.span,
        ValueAst::Number(n) => n.0.span,
        ValueAst::String(t) => t.0.span,
        ValueAst::Null(n) => n.0.span,
        ValueAst::Bool(b) => b.0.span,
    }
}

/// What a successful parse starting at `p` and ending at `e` promises of
/// the tree it returns: the tree is well formed with nested, ordered
/// spans, it spans the text from the first token to `e`, a scalar first
/// token is the whole tree, and a container holds exactly one element for
/// each entry its token stream yields, in order, each element itself
/// keeping this promise at its entry's position.
pub open spec fn parse_ok(v: ValueAst, s: Seq<char>, p: int, e: int) -> bool
    decreases v, 0int,
{
    &&& value_wf(v, s)
    &&& value_placed(v, s)
    &&& ast_span(v).0 == tok_ws_end(s, p)
    &&& ast_span(v).1 == e
    &&& (match token_result(s, p) {
        Some(Ok(t)) => {
            if t.ty == TokenType::Number {
                v == ValueAst::Number(NumberAst(t))
            } else if t.ty == TokenType::String {
                v == ValueAst::String(StringAst(t))
            } else if t.ty == TokenType::Null {
                v == ValueAst::Null(NullAst(t))
            } else if t.ty == TokenType::True || t.ty == TokenType::False {
                v == ValueAst::Bool(BoolAst(t))
            } else if t.ty == TokenType::Lbrace {
                v matches ValueAst::Object(o) && (match token_result(s, t.span.1 as int) {
                    Some(Ok(t2)) => {
                        if t2.ty == TokenType::Rbrace {
                            o.elems@.len() == 0
                        } else {
                            match obj_entry_list(s, t.span.1 as int) {
                                Some(list) => {
                                    &&& o.elems@.len() == list.len()
                                    &&& o.elems@.len() > 0
                                    &&& obj_elems_match(o, s, list, 0)
                                },
                                None => false,
                            }
                        }
                    },
                    _ => false,
                })
            } else if t.ty == TokenType::Lbracket {
                v matches ValueAst::Array(a) && (match token_result(s, t.span.1 as int) {
                    Some(Ok(t2)) => {
                        if t2.ty == TokenType::Rbracket {
                            a.elems@.len() == 0
                        } else {
                            match arr_item_list(s, t.span.1 as int) {
                                Some(list) => {
                                    &&& a.elems@.len() == list.len()
                                    &&& a.elems@.len() > 0
                                    &&& arr_items_match(a, s, list, 0)
                                },
                                None => false,
                            }
                        }
                    },
                    _ => false,
                })
            } else {
                false
            }
        },
        _ => false,
    })
}

/// The entries of `o` from `i` on are the stream's entries: the same key
/// token, and a value that itself parses at the entry's position, ending
/// where the entry ends.
pub open spec fn obj_elems_match(
    o: ObjectAst,
    s: Seq<char>,
    list: Seq<(Token, int, int)>,
    i: int,
) -> bool
    decreases o, o.elems@.len() - i,
{
    i >= o.elems@.len() || (0 <= i && i < list.len() && o.elems@[i].0 == StringAst(list[i].0)
        && parse_ok(o.elems@[i].1, s, list[i].1, list[i].2) && obj_elems_match(o, s, list, i + 1))
}

/// The elements of `a` from `i` on are the stream's elements: each parses
/// at its entry's position, ending where the entry ends.
pub open spec fn arr_items_match(a: ArrayAst, s: Seq<char>, list: Seq<(int, int)>, i: int) -> bool
    decreases a, a.elems@.len() - i,
{
    i >= a.elems@.len() || (0 <= i && i < list.len() && parse_ok(
        a.elems@[i],
        s,
        list[i].0,
        list[i].1,
    ) && arr_items_match(a, s, list, i + 1))
}

/// As `obj_elems_match`, over the bare entry sequence.
spec fn elems_match_entries(
    es: Seq<(StringAst, ValueAst)>,
    s: Seq<char>,
    list: Seq<(Token, int, int)>,
    i: int,
) -> bool
    decreases es.len() - i
        when 0 <= i <= es.len()
{
    i >= es.len() || (i < list.len() && es[i].0 == StringAst(list[i].0) && parse_ok(
        es[i].1,
        s,
        list[i].1,
        list[i].2,
    ) && elems_match_entries(es, s, list, i + 1))
}

/// As `arr_items_match`, over the bare element sequence.
spec fn items_match_list(es: Seq<ValueAst>, s: Seq<char>, list: Seq<(int, int)>, i: int) -> bool
    decreases es.len() - i
        when 0 <= i <= es.len()
{
    i >= es.len() || (i < list.len() && parse_ok(es[i], s, list[i].0, list[i].1)
        && items_match_list(es, s, list, i + 1))
}

/// Matching over the bare sequence gives the object form.
proof fn lemma_elems_match_entries(o: ObjectAst, s: Seq<char>, list: Seq<(Token, int, int)>, i: int)
    requires
        0 <= i <= o.elems@.len(),
        elems_match_entries(o.elems@, s, list, i),
    ensures
        obj_elems_match(o, s, list, i),
    decreases o.elems@.len() - i,
{
    if i < o.elems@.len() {
        lemma_elems_match_entries(o, s, list, i + 1);
    }
}

/// Matching over the bare sequence gives the array form.
proof fn lemma_items_match_list(a: ArrayAst, s: Seq<char>, list: Seq<(int, int)>, i: int)
    requires
        0 <= i <= a.elems@.len(),
        items_match_list(a.elems@, s, list, i),
    ensures
        arr_items_match(a, s, list, i),
    decreases a.elems@.len() - i,
{
    if i < a.elems@.len() {
        lemma_items_match_list(a, s, list, i + 1);
    }
}

/// Appending an entry and its descriptor together keeps the match.
proof fn lemma_elems_match_push(
    es: Seq<(StringAst, ValueAst)>,
    s: Seq<char>,
    list: Seq<(Token, int, int)>,
    i: int,
    x: (StringAst, ValueAst),
    d: (Token, int, int),
)
    requires
        0 <= i <= es.len(),
        es.len() == list.len(),
        elems_match_entries(es, s, list, i),
        x.0 == StringAst(d.0),
        parse_ok(x.1, s, d.1, d.2),
    ensures
        elems_match_entries(es.push(x), s, list.push(d), i),
    decreases es.len() - i,
{
    if i >= es.len() {
        assert(es.push(x)[i] == x);
        assert(list.push(d)[i] == d);
        assert(elems_match_entries(es.push(x), s, list.push(d), i + 1));
    } else {
        assert(es.push(x)[i] == es[i]);
        assert(list.push(d)[i] == list[i]);
        assert(elems_match_entries(es, s, list, i + 1));
        lemma_elems_match_push(es, s, list, i + 1, x, d);
    }
}

/// Appending an element and its descriptor together keeps the match.
proof fn lemma_items_match_push(
    es: Seq<ValueAst>,
    s: Seq<char>,
    list: Seq<(int, int)>,
    i: int,
    x: ValueAst,
    d: (int, int),
)
    requires
        0 <= i <= es.len(),
        es.len() == list.len(),
        items_match_list(es, s, list, i),
        parse_ok(x, s, d.0, d.1),
    ensures
        items_match_list(es.push(x), s, list.push(d), i),
    decreases es.len() - i,
{
    if i >= es.len() {
        assert(es.push(x)[i] == x);
        assert(list.push(d)[i] == d);
        assert(items_match_list(es.push(x), s, list.push(d), i + 1));
    } else {
        assert(es.push(x)[i] == es[i]);
        assert(list.push(d)[i] == list[i]);
        assert(items_match_list(es, s, list, i + 1));
        lemma_items_match_push(es, s, list, i + 1, x, d);
    }
}

/// A token the tokenizer reports points at text of its kind: a string
/// token at a quote-delimited string, a number token at a maximal number
/// run, a keyword token at its word.
proof fn lemma_token_shape(s: Seq<char>, p: int, t: Token)
    requires
        0 <= p <= s.len() <= usize::MAX,
        token_result(s, p) == Some(Ok::<Token, Error>(t)),
    ensures
        t.ty == TokenType::String ==> string_token_wf(t, s) && quoted_at(t, s),
        t.ty == TokenType::Number ==> num_token_at(t, s),
        t.ty == TokenType::Null ==> word_at(t, s, seq!['n', 'u', 'l', 'l']),
        t.ty == TokenType::True ==> word_at(t, s, seq!['t', 'r', 'u', 'e']),
        t.ty == TokenType::False ==> word_at(t, s, seq!['f', 'a', 'l', 's', 'e']),
{
    let j = tok_ws_end(s, p);
    crate::token::lemma_tok_ws_end(s, p);
    let c = s[j];
    if c == '"' {
        match string_body_end(s, j + 1) {
            Some(q) => {
                crate::scan::lemma_string_body_end(s, j + 1);
            },
            None => {},
        }
    } else if is_digit(c) || c == '-' {
        crate::token::lemma_num_cont_end(s, j + 1);
    }
}

/// The index of the first entry at or after `i` whose key's body equals
/// `key`, with `s` the text the object was parsed from.
pub open spec fn find_key_from(
    elems: Seq<(StringAst, ValueAst)>,
    s: Seq<char>,
    key: Seq<char>,
    i: int,
) -> Option<int>
    decreases elems.len() - i
        when 0 <= i <= elems.len()
{
    if i >= elems.len() {
        None
    } else if string_value(elems[i].0, s) == key {
        Some(i)
    } else {
        find_key_from(elems, s, key, i + 1)
    }
}

impl StringAst {
    /// The text inside the string's quotes; `s` must be the text the
    /// string was cut from.
    pub fn value<'a>(&self, s: &'a str) -> (r: &'a str)
        requires
            self.0.span.0 + 2 <= self.0.span.1 <= s@.len(),
        ensures
            r@ == string_value(*self, s@),
    {
        s.substring_char(self.0.span.0 + 1, self.0.span.1 - 1)
    }

    /// The raw text of this node, quotes included.
    pub fn get_raw_string<'a>(&self, s: &'a str) -> (r: &'a str)
        requires
            self.0.span.0 <= self.0.span.1 <= s@.len(),
        ensures
            r@ == s@.subrange(self.0.span.0 as int, self.0.span.1 as int),
    {
        s.substring_char(self.0.span.0, self.0.span.1)
    }
}

impl NumberAst {
    /// The raw text of this node.
    pub fn get_raw_string<'a>(&self, s: &'a str) -> (r: &'a str)
        requires
            self.0.span.0 <= self.0.span.1 <= s@.len(),
        ensures
            r@ == s@.subrange(self.0.span.0 as int, self.0.span.1 as int),
    {
        s.substring_char(self.0.span.0, self.0.span.1)
    }
}

impl NullAst {
    /// The raw text of this node.
    pub fn get_raw_string<'a>(&self, s: &'a str) -> (r: &'a str)
        requires
            self.0.span.0 <= self.0.span.1 <= s@.len(),
        ensures
            r@ == s@.subrange(self.0.span.0 as int, self.0.span.1 as int),
    {
        s.substring_char(self.0.span.0, self.0.span.1)
    }
}

impl BoolAst {
    /// The raw text of this node.
    pub fn get_raw_string<'a>(&self, s: &'a str) -> (r: &'a str)
        requires
            self.0.span.0 <= self.0.span.1 <= s@.len(),
        ensures
            r@ == s@.subrange(self.0.span.0 as int, self.0.span.1 as int),
    {
        s.substring_char(self.0.span.0, self.0.span.1)
    }
}

impl ObjectAst {
    /// The raw text of this node, braces included.
    pub fn get_raw_string<'a>(&self, s: &'a str) -> (r: &'a str)
        requires
            self.span.0 <= self.span.1 <= s@.len(),
        ensures
            r@ == s@.subrange(self.span.0 as int, self.span.1 as int),
    {
        s.substring_char(self.span.0, self.span.1)
    }

    /// Looks up the value under `key`: the first entry whose key's body
    /// equals it, scanning the entries in order. `s` must be the text this
    /// object was parsed from.
    pub fn get_item(&self, s: &str, key: &str) -> (r: core::result::Result<&ValueAst, Error>)
        requires
            obj_elems_wf(*self, s@, 0),
        ensures
            match find_key_from(self.elems@, s@, key@, 0) {
                Some(i) => r matches Ok(v) && *v == self.elems@[i].1,
                None => r matches Err(e) && e == Error::KeyNotFound,
            },
    {
        proof {
            lemma_obj_elems_wf(*self, s@, 0);
        }
        let mut idx: usize = 0;
        let n = self.elems.len();
        while idx < n
            invariant
                n == self.elems@.len(),
                idx <= n,
                forall|k: int| 0 <= k < n ==> #[trigger] entry_wf(self.elems@[k], s@),
                find_key_from(self.elems@, s@, key@, 0) == find_key_from(
                    self.elems@,
                    s@,
                    key@,
                    idx as int,
                ),
            decreases n - idx,
        {
            let entry = &self.elems[idx];
            proof {
                assert(entry_wf(self.elems@[idx as int], s@));
            }
            let body = entry.0.value(s);
            if crate::scan::str_equal(body, key) {
                return Ok(&entry.1);
            }
            idx = idx + 1;
        }
        Err(Error::KeyNotFound)
    }
}

impl ArrayAst {
    /// The raw text of this node, brackets included.
    pub fn get_raw_string<'a>(&self, s: &'a str) -> (r: &'a str)
        requires
            self.span.0 <= self.span.1 <= s@.len(),
        ensures
            r@ == s@.subrange(self.span.0 as int, self.span.1 as int),
    {
        s.substring_char(self.span.0, self.span.1)
    }
}

impl ValueAst {
    /// The raw text of this node.
    pub fn get_raw_string<'a>(&self, s: &'a str) -> (r: &'a str)
        requires
            value_wf(*self, s@),
        ensures
            r@ == s@.subrange(ast_span(*self).0 as int, ast_span(*self).1 as int),
    {
        match self {
            ValueAst::Object(o) => o.get_raw_string(s),
            ValueAst::Array(a) => a.get_raw_string(s),
            ValueAst::Null(n) => n.get_raw_string(s),
            ValueAst::Number(n) => n.get_raw_string(s),
            ValueAst::String(t) => t.get_raw_string(s),
            ValueAst::Bool(b) => b.get_raw_string(s),
        }
    }

    /// The reading a record field needs: the raw text of a number, or the
    /// body of a string. Other kinds of value have no such reading.
    pub fn get_str_or_number_value<'a>(&self, s: &'a str) -> (r: core::result::Result<
        &'a str,
        Error,
    >)
        requires
            value_wf(*self, s@),
        ensures
            match *self {
                ValueAst::Number(n) => r matches Ok(x) && x@ == s@.subrange(
                    n.0.span.0 as int,
                    n.0.span.1 as int,
                ),
                ValueAst::String(t) => r matches Ok(x) && x@ == string_value(t, s@),
                _ => r matches Err(e) && e == Error::InvalidTokenType,
            },
    {
        match self {
            ValueAst::Number(n) => Ok(n.get_raw_string(s)),
            ValueAst::String(t) => Ok(t.value(s)),
            _ => Err(Error::InvalidTokenType),
        }
    }
}

/// Parses one value from the token stream and consumes exactly its tokens.
#[verifier::rlimit(100)]
fn parse_json_inner(iter: &mut TokenIter) -> (r: core::result::Result<ValueAst, Error>)
    requires
        old(iter).wf(),
    ensures
        final(iter).wf(),
        final(iter).text_seq() == old(iter).text_seq(),
        old(iter).position() <= final(iter).position(),
        match parse_value_end(old(iter).text_seq(), old(iter).position()) {
            Ok(e) => {
                &&& r matches Ok(v)
                &&& final(iter).position() == e
                &&& old(iter).position() < e
                &&& parse_ok(v, old(iter).text_seq(), old(iter).position(), e)
            },
            Err(err) => r matches Err(e2) && e2 == err,
        },
    decreases iter.text_seq().len() - iter.position(), 0int,
{
    let ghost s = iter.text_seq();
    let ghost p = iter.position();
    let tok = match iter.next() {
        None => {
            return Err(Error::EmptyJson);
        },
        Some(Err(e)) => {
            return Err(e);
        },
        Some(Ok(t)) => t,
    };
    proof {
        lemma_token_shape(s, p, tok);
    }
    match tok.ty {
        TokenType::Number => Ok(ValueAst::Number(NumberAst(tok))),
        TokenType::String => Ok(ValueAst::String(StringAst(tok))),
        TokenType::Null => Ok(ValueAst::Null(NullAst(tok))),
        TokenType::True => Ok(ValueAst::Bool(BoolAst(tok))),
        TokenType::False => Ok(ValueAst::Bool(BoolAst(tok))),
        TokenType::Lbrace => {
            let first = match iter.peek() {
                None => {
                    return Err(Error::UnterminatedJsonObject);
                },
                Some(Err(e)) => {
                    return Err(e);
                },
                Some(Ok(t2)) => t2,
            };
            if first.ty == TokenType::Rbrace {
                let _ = iter.next();
                let span = Span::range(tok.span.0, first.span.1);
                let elems: Vec<(StringAst, ValueAst)> = Vec::new();
                let oast = ObjectAst { span, elems };
                proof {
                    assert(obj_placed(oast, s, 0, oast.span.0 + 1));
                    assert(value_placed(ValueAst::Object(oast), s));
                }
                return Ok(ValueAst::Object(oast));
            }
            match parse_object_items(iter, tok.span.0) {
                Err(e) => Err(e),
                Ok(o) => Ok(ValueAst::Object(o)),
            }
        },
        TokenType::Lbracket => {
            let first = match iter.peek() {
                None => {
                    return Err(Error::UnterminatedJsonArray);
                },
                Some(Err(e)) => {
                    return Err(e);
                },
                Some(Ok(t2)) => t2,
            };
            if first.ty == TokenType::Rbracket {
                let _ = iter.next();
                let span = Span::range(tok.span.0, first.span.1);
                let elems: Vec<ValueAst> = Vec::new();
                let aast = ArrayAst { span, elems };
                proof {
                    assert(arr_placed(aast, s, 0, aast.span.0 + 1));
                    assert(value_placed(ValueAst::Array(aast), s));
                }
                return Ok(ValueAst::Array(aast));
            }
            match parse_array_items(iter, tok.span.0) {
                Err(e) => Err(e),
                Ok(a) => Ok(ValueAst::Array(a)),
            }
        },
        _ => Err(Error::UnexpectedToken),
    }
}

/// Parses the entries of a nonempty object, the token stream standing on
/// the first key, and builds the object node. `start` is the position of
/// the object's opening brace.
#[verifier::rlimit(100)]
fn parse_object_items(iter: &mut TokenIter, start: usize) -> (r: core::result::Result<
    ObjectAst,
    Error,
>)
    requires
        old(iter).wf(),
        start < old(iter).position(),
    ensures
        final(iter).wf(),
        final(iter).text_seq() == old(iter).text_seq(),
        old(iter).position() <= final(iter).position(),
        match parse_object_items_end(old(iter).text_seq(), old(iter).position()) {
            Ok(e) => {
                &&& r matches Ok(o)
                &&& final(iter).position() == e
                &&& o.span.0 == start
                &&& o.span.1 == e
                &&& o.elems@.len() > 0
                &&& value_wf(ValueAst::Object(o), old(iter).text_seq())
                &&& value_placed(ValueAst::Object(o), old(iter).text_seq())
                &&& (match obj_entry_list(old(iter).text_seq(), old(iter).position()) {
                    Some(list) => o.elems@.len() == list.len() && obj_elems_match(
                        o,
                        old(iter).text_seq(),
                        list,
                        0,
                    ),
                    None => false,
                })
            },
            Err(err) => r matches Err(e2) && e2 == err,
        },
    decreases iter.text_seq().len() - iter.position(), 1int,
{
    let ghost s = iter.text_seq();
    let ghost p = iter.position();
    let mut elems: Vec<(StringAst, ValueAst)> = Vec::new();
    let ghost mut built: Seq<(Token, int, int)> = Seq::empty();
    proof {
        match obj_entry_list(s, p) {
            Some(r) => {
                assert(Seq::<(Token, int, int)>::empty() + r =~= r);
            },
            None => {},
        }
    }
    loop
        invariant
            iter.wf(),
            iter.text_seq() == s,
            s == old(iter).text_seq(),
            p == old(iter).position(),
            start < p,
            p <= iter.position() <= s.len(),
            parse_object_items_end(s, p) == parse_object_items_end(s, iter.position()),
            forall|k: int| 0 <= k < elems@.len() ==> #[trigger] entry_wf(elems@[k], s),
            entries_chained(elems@, s, 0, start as int + 1, iter.position() - 1),
            built.len() == elems@.len(),
            elems_match_entries(elems@, s, built, 0),
            obj_entry_list(s, p) == opt_prepend(built, obj_entry_list(s, iter.position())),
        decreases s.len() - iter.position(),
    {
        let ghost i0 = iter.position();
        let key = match iter.next() {
            None => {
                return Err(Error::UnterminatedJsonObject);
            },
            Some(Err(e)) => {
                return Err(e);
            },
            Some(Ok(t)) => t,
        };
        if key.ty != TokenType::String {
            return Err(Error::MalformedJsonObject);
        }
        proof {
            lemma_token_shape(s, i0, key);
            assert(clampi(key.span.1 as int, i0 + 1, s.len() as int) == key.span.1 as int);
        }
        let colon = match iter.next() {
            None => {
                return Err(Error::UnterminatedJsonObject);
            },
            Some(Err(e)) => {
                return Err(e);
            },
            Some(Ok(t)) => t,
        };
        if colon.ty != TokenType::Colon {
            return Err(Error::MalformedJsonObject);
        }
        proof {
            assert(clampi(colon.span.1 as int, key.span.1 + 1, s.len() as int) == colon.span.1
                as int);
        }
        let ghost p2 = iter.position();
        let value = match parse_json_inner(iter) {
            Err(e) => {
                return Err(e);
            },
            Ok(v) => v,
        };
        let ghost ve = iter.position();
        let ghost d = (key, p2, ve);
        proof {
            assert(clampi(iter.position(), p2, s.len() as int) == iter.position());
        }
        let ghost prev = elems@;
        let ghost built0 = built;
        let ghost vspan = ast_span(value);
        elems.push((StringAst(key), value));
        proof {
            assert forall|k: int|
                0 <= k < elems@.len() implies #[trigger] entry_wf(elems@[k], s) by {
                if k < prev.len() {
                    assert(elems@[k] == prev[k]);
                    assert(entry_wf(prev[k], s));
                } else {
                    assert(elems@[k] == (StringAst(key), value));
                }
            }
            assert(key.span.1 <= colon.span.0 < colon.span.1 <= vspan.0);
            lemma_entries_chained_push(
                prev,
                s,
                0,
                start as int + 1,
                i0 - 1,
                (StringAst(key), value),
            );
            lemma_elems_match_push(prev, s, built0, 0, (StringAst(key), value), d);
            built = built.push(d);
        }
        let sep = match iter.next() {
            None => {
                return Err(Error::UnterminatedJsonObject);
            },
            Some(Err(e)) => {
                return Err(e);
            },
            Some(Ok(t)) => t,
        };
        if sep.ty == TokenType::Comma {
            proof {
                lemma_entries_chained_widen(
                    elems@,
                    s,
                    0,
                    start as int + 1,
                    vspan.1 as int,
                    sep.span.1 - 1,
                );
                assert(obj_entry_list(s, i0) == opt_prepend(
                    seq![d],
                    obj_entry_list(s, sep.span.1 as int),
                ));
                assert(built =~= built0 + seq![d]);
                match obj_entry_list(s, sep.span.1 as int) {
                    Some(r) => {
                        assert(built0 + (seq![d] + r) =~= (built0 + seq![d]) + r);
                    },
                    None => {},
                }
            }
        } else if sep.ty == TokenType::Rbrace {
            let span = Span::range(start, sep.span.1);
            let ghost esnap = elems@;
            let oast = ObjectAst { span, elems };
            proof {
                assert(oast.elems@ == esnap);
                lemma_obj_elems_wf(oast, s, 0);
                assert(value_wf(ValueAst::Object(oast), s));
                lemma_entries_chained_widen(
                    esnap,
                    s,
                    0,
                    start as int + 1,
                    vspan.1 as int,
                    sep.span.1 - 1,
                );
                lemma_entries_chained_placed(oast, s, 0, start as int + 1);
                assert(value_placed(ValueAst::Object(oast), s));
                assert(obj_entry_list(s, i0) == Some(seq![d]));
                assert(built =~= built0 + seq![d]);
                assert(obj_entry_list(s, p) == Some(built));
                lemma_elems_match_entries(oast, s, built, 0);
            }
            return Ok(oast);
        } else {
            return Err(Error::MalformedJsonObject);
        }
    }
}

/// Parses the elements of a nonempty array, the token stream standing on
/// the first element, and builds the array node. `start` is the position of
/// the array's opening bracket.
#[verifier::rlimit(100)]
fn parse_array_items(iter: &mut TokenIter, start: usize) -> (r: core::result::Result<
    ArrayAst,
    Error,
>)
    requires
        old(iter).wf(),
        start < old(iter).position(),
    ensures
        final(iter).wf(),
        final(iter).text_seq() == old(iter).text_seq(),
        old(iter).position() <= final(iter).position(),
        match parse_array_items_end(old(iter).text_seq(), old(iter).position()) {
            Ok(e) => {
                &&& r matches Ok(a)
                &&& final(iter).position() == e
                &&& a.span.0 == start
                &&& a.span.1 == e
                &&& a.elems@.len() > 0
                &&& value_wf(ValueAst::Array(a), old(iter).text_seq())
                &&& value_placed(ValueAst::Array(a), old(iter).text_seq())
                &&& (match arr_item_list(old(iter).text_seq(), old(iter).position()) {
                    Some(list) => a.elems@.len() == list.len() && arr_items_match(
                        a,
                        old(iter).text_seq(),
                        list,
                        0,
                    ),
                    None => false,
                })
            },
            Err(err) => r matches Err(e2) && e2 == err,
        },
    decreases iter.text_seq().len() - iter.position(), 1int,
{
    let ghost s = iter.text_seq();
    let ghost p = iter.position();
    let mut elems: Vec<ValueAst> = Vec::new();
    let ghost mut built: Seq<(int, int)> = Seq::empty();
    proof {
        match arr_item_list(s, p) {
            Some(r) => {
                assert(Seq::<(int, int)>::empty() + r =~= r);
            },
            None => {},
        }
    }
    loop
        invariant
            iter.wf(),
            iter.text_seq() == s,
            s == old(iter).text_seq(),
            p == old(iter).position(),
            start < p,
            p <= iter.position() <= s.len(),
            parse_array_items_end(s, p) == parse_array_items_end(s, iter.position()),
            forall|k: int| 0 <= k < elems@.len() ==> #[trigger] value_wf(elems@[k], s),
            items_chained(elems@, s, 0, start as int + 1, iter.position() - 1),
            built.len() == elems@.len(),
            items_match_list(elems@, s, built, 0),
            arr_item_list(s, p) == opt_prepend(built, arr_item_list(s, iter.position())),
        decreases s.len() - iter.position(),
    {
        let ghost i0 = iter.position();
        let value = match parse_json_inner(iter) {
            Err(e) => {
                return Err(e);
            },
            Ok(v) => v,
        };
        let ghost ve = iter.position();
        let ghost d = (i0, ve);
        proof {
            assert(clampi(iter.position(), i0 + 1, s.len() as int) == iter.position());
        }
        let ghost prev = elems@;
        let ghost built0 = built;
        let ghost vspan = ast_span(value);
        elems.push(value);
        proof {
            assert forall|k: int| 0 <= k < elems@.len() implies #[trigger] value_wf(
                elems@[k],
                s,
            ) by {
                if k < prev.len() {
                    assert(elems@[k] == prev[k]);
                    assert(value_wf(prev[k], s));
                } else {
                    assert(elems@[k] == value);
                }
            }
            lemma_items_chained_push(prev, s, 0, start as int + 1, i0 - 1, value);
            lemma_items_match_push(prev, s, built0, 0, value, d);
            built = built.push(d);
        }
        let sep = match iter.next() {
            None => {
                return Err(Error::UnterminatedJsonArray);
            },
            Some(Err(e)) => {
                return Err(e);
            },
            Some(Ok(t)) => t,
        };
        if sep.ty == TokenType::Rbracket {
            let span = Span::range(start, sep.span.1);
            let ghost esnap = elems@;
            let aast = ArrayAst { span, elems };
            proof {
                assert(aast.elems@ == esnap);
                lemma_arr_elems_wf(aast, s, 0);
                assert(value_wf(ValueAst::Array(aast), s));
                lemma_items_chained_widen(
                    esnap,
                    s,
                    0,
                    start as int + 1,
                    vspan.1 as int,
                    sep.span.1 - 1,
                );
                lemma_items_chained_placed(aast, s, 0, start as int + 1);
                assert(value_placed(ValueAst::Array(aast), s));
                assert(arr_item_list(s, i0) == Some(seq![d]));
                assert(built =~= built0 + seq![d]);
                assert(arr_item_list(s, p) == Some(built));
                lemma_items_match_list(aast, s, built, 0);
            }
            return Ok(aast);
        } else if sep.ty == TokenType::Comma {
            proof {
                lemma_items_chained_widen(
                    elems@,
                    s,
                    0,
                    start as int + 1,
                    vspan.1 as int,
                    sep.span.1 - 1,
                );
                assert(arr_item_list(s, i0) == opt_prepend(
                    seq![d],
                    arr_item_list(s, sep.span.1 as int),
                ));
                assert(built =~= built0 + seq![d]);
                match arr_item_list(s, sep.span.1 as int) {
                    Some(r) => {
                        assert(built0 + (seq![d] + r) =~= (built0 + seq![d]) + r);
                    },
                    None => {},
                }
            }
        } else {
            return Err(Error::MalformedJsonArray);
        }
    }
}

/// Parses the given text and returns the tree of the first value in it.
/// Text after that value is left unread.
pub fn parse_json(s: &str) -> (r: core::result::Result<ValueAst, Error>)
    ensures
        match parse_value_end(s@, 0) {
            Ok(e) => r matches Ok(v) && parse_ok(v, s@, 0, e),
            Err(err) => r matches Err(e2) && e2 == err,
        },
{
    let mut iter = TokenIter::new(s);
    parse_json_inner(&mut iter)
}

} // verus!
