//! Typed node handles over the lazy cursor. A node is a cursor plus a
//! type-level tag stating what has already been checked about the value the
//! cursor points at; narrowing a node to another tag re-inspects the leading
//! character. Every navigation call copies the cursor before moving it, so
//! nodes obtained from the same parent never interfere.

use core::marker::PhantomData;

use vstd::prelude::*;

use crate::cursor::{elem_pos, key_pos, raw_scan, Cursor, Error, Result};
use crate::scan::{
    adv, adv_token, digit_char, digits_end, digits_val, is_digit, is_ws,
    lemma_digits_val_prefix, lemma_digits_val_step, lemma_u64_digit_bound, skip_ws,
};

verus! {

broadcast use {
    crate::scan::lemma_skip_ws,
    crate::scan::lemma_adv_token,
    crate::scan::lemma_digits_end,
    crate::cursor::lemma_raw_scan,
    crate::cursor::lemma_cursor_wf_bounds,
};

/// Tag of the entry point: nothing is known about the value yet.
pub struct DocumentType {}

/// Tag of a value whose leading character was checked to open an array.
pub struct ArrayType {}

/// Tag of a value whose leading character was checked to open an object.
pub struct ObjectType {}

/// Tag of a value whose leading character was checked to open a string.
pub struct StringType {}

/// Tag of a value whose leading character was checked to start a number.
pub struct NumberType {}

/// Tag of a value returned by a traversal step and not yet classified.
pub struct UnknownType {}

/// A position in the input text, tagged with what is known about the value
/// starting there. The tag is a zero-sized, compile-time label: all nodes
/// carry the same runtime state, a cursor.
#[verifier::reject_recursive_types(T)]
pub struct Node<'a, T> {
    cursor: Cursor<'a>,
    _pd: PhantomData<T>,
}

pub type Document<'a> = Node<'a, DocumentType>;

pub type GenericNode<'a> = Node<'a, UnknownType>;

pub type Array<'a> = Node<'a, ArrayType>;

pub type Object<'a> = Node<'a, ObjectType>;

pub type JsonString<'a> = Node<'a, StringType>;

pub type Number<'a> = Node<'a, NumberType>;

impl<'a, T> Node<'a, T> {
    /// The characters of the input text the node was derived from.
    pub closed spec fn text_seq(self) -> Seq<char> {
        self.cursor.text_seq()
    }

    /// The position of the value the node points at.
    pub closed spec fn position(self) -> int {
        self.cursor.position()
    }

    /// The node's cursor is well formed.
    pub closed spec fn wf(self) -> bool {
        self.cursor.wf()
    }

    /// The character the node points at, if any.
    pub open spec fn current(self) -> Option<char> {
        if self.position() < self.text_seq().len() {
            Some(self.text_seq()[self.position()])
        } else {
            None
        }
    }

    /// The node rests at the end of the input or on non-whitespace.
    pub open spec fn normalized(self) -> bool {
        self.position() == self.text_seq().len() || !is_ws(self.text_seq()[self.position()])
    }

    /// The character the node points at, if any.
    pub fn get_char(&self) -> (r: Option<char>)
        requires
            self.wf(),
        ensures
            r == self.current(),
    {
        self.cursor.get_char()
    }
}

impl<'a> Document<'a> {
    /// Opens a document over the given text, positioned at its first
    /// non-whitespace character.
    pub fn new(data: &'a str) -> (doc: Self)
        ensures
            doc.wf(),
            doc.text_seq() == data@,
            doc.position() == skip_ws(data@, 0),
            doc.normalized(),
    {
        Document { cursor: Cursor::new(data), _pd: PhantomData }
    }

    /// Narrows the document to an array if it starts with `[`.
    pub fn as_array(self) -> (r: Result<Array<'a>>)
        requires
            self.wf(),
        ensures
            self.current() == Some('[') ==> (r matches Ok(a) && a.wf() && a.text_seq()
                == self.text_seq() && a.position() == self.position()),
            self.current() != Some('[') ==> (r matches Err(e) && e == Error::NotAnArray),
    {
        let open = match self.cursor.get_char() {
            Some(c) => c == '[',
            None => false,
        };
        if !open {
            return Err(Error::NotAnArray);
        }
        Ok(Array { cursor: self.cursor, _pd: PhantomData })
    }
}

impl<'a> Array<'a> {
    /// Resolves the element at `index`, scanning the array from its start:
    /// each call re-walks the elements before `index` and leaves the siblings
    /// untouched. The element comes back as an unclassified node resting on
    /// its first character; an array holding `index` elements or fewer is
    /// reported as not holding the index.
    pub fn get_index(&self, index: usize) -> (r: Result<GenericNode<'a>>)
        requires
            self.wf(),
        ensures
            match elem_pos(
                self.text_seq(),
                adv_token(self.text_seq(), self.position()),
                index as nat,
                index,
            ) {
                Ok(p) => r matches Ok(n) && n.wf() && n.text_seq() == self.text_seq()
                    && n.position() == p && n.normalized(),
                Err(e) => r matches Err(e2) && e2 == e,
            },
    {
        let ghost s = self.text_seq();
        let mut cursor = self.cursor;
        cursor.advance_token();
        let mut i: usize = 0;
        while i < index
            invariant
                cursor.wf(),
                cursor.text_seq() == s,
                s == self.text_seq(),
                self.wf(),
                cursor.normalized(),
                i <= index,
                elem_pos(s, adv_token(s, self.position()), index as nat, index) == elem_pos(
                    s,
                    cursor.position(),
                    (index - i) as nat,
                    index,
                ),
            decreases index - i,
        {
            let c = match cursor.get_char() {
                None => {
                    return Err(Error::UnterminatedArray);
                },
                Some(c) => c,
            };
            if c == ']' {
                return Err(Error::IndexNotFound(index));
            }
            match cursor.advance_value() {
                Err(e) => {
                    return Err(e);
                },
                Ok(()) => {},
            }
            let comma = match cursor.get_char() {
                Some(c2) => c2 == ',',
                None => false,
            };
            if comma {
                cursor.advance_token();
            }
            i = i + 1;
        }
        let c = match cursor.get_char() {
            None => {
                return Err(Error::UnterminatedArray);
            },
            Some(c) => c,
        };
        if c == ']' {
            return Err(Error::IndexNotFound(index));
        }
        Ok(GenericNode { cursor, _pd: PhantomData })
    }
}

impl<'a> GenericNode<'a> {
    /// Narrows the node to an array if it points at `[`.
    pub fn as_array(self) -> (r: Result<Array<'a>>)
        requires
            self.wf(),
        ensures
            self.current() == Some('[') ==> (r matches Ok(n) && n.wf() && n.text_seq()
                == self.text_seq() && n.position() == self.position()),
            self.current() != Some('[') ==> (r matches Err(e) && e == Error::NotAnArray),
    {
        let ok = match self.cursor.get_char() {
            Some(c) => c == '[',
            None => false,
        };
        if !ok {
            return Err(Error::NotAnArray);
        }
        Ok(Array { cursor: self.cursor, _pd: PhantomData })
    }

    /// Narrows the node to an object if it points at `{`.
    pub fn as_object(self) -> (r: Result<Object<'a>>)
        requires
            self.wf(),
        ensures
            self.current() == Some('{') ==> (r matches Ok(n) && n.wf() && n.text_seq()
                == self.text_seq() && n.position() == self.position()),
            self.current() != Some('{') ==> (r matches Err(e) && e == Error::NotAnObject),
    {
        let ok = match self.cursor.get_char() {
            Some(c) => c == '{',
            None => false,
        };
        if !ok {
            return Err(Error::NotAnObject);
        }
        Ok(Object { cursor: self.cursor, _pd: PhantomData })
    }

    /// Narrows the node to a number if it points at a digit or minus sign.
    pub fn as_number(self) -> (r: Result<Number<'a>>)
        requires
            self.wf(),
        ensures
            (match self.current() {
                Some(c) => c == '-' || is_digit(c),
                None => false,
            }) ==> (r matches Ok(n) && n.wf() && n.text_seq() == self.text_seq() && n.position()
                == self.position()),
            !(match self.current() {
                Some(c) => c == '-' || is_digit(c),
                None => false,
            }) ==> (r matches Err(e) && e == Error::NotANumber),
    {
        let ok = match self.cursor.get_char() {
            Some(c) => c == '-' || digit_char(c),
            None => false,
        };
        if !ok {
            return Err(Error::NotANumber);
        }
        Ok(Number { cursor: self.cursor, _pd: PhantomData })
    }

    /// Narrows the node to a string if it points at `"`.
    pub fn as_string(self) -> (r: Result<JsonString<'a>>)
        requires
            self.wf(),
        ensures
            self.current() == Some('"') ==> (r matches Ok(n) && n.wf() && n.text_seq()
                == self.text_seq() && n.position() == self.position()),
            self.current() != Some('"') ==> (r matches Err(e) && e == Error::NotAString),
    {
        let ok = match self.cursor.get_char() {
            Some(c) => c == '"',
            None => false,
        };
        if !ok {
            return Err(Error::NotAString);
        }
        Ok(JsonString { cursor: self.cursor, _pd: PhantomData })
    }
}

impl<'a> Object<'a> {
    /// Resolves the value under `key`, scanning the object's entries in
    /// order and comparing each key inline, without allocating. The first
    /// entry whose key matches wins; later duplicates are never visited.
    /// The value comes back as an unclassified node resting on its first
    /// character. An input that ends while entries are still being scanned
    /// is an unterminated object.
    pub fn get_key(&self, key: &str) -> (r: Result<GenericNode<'a>>)
        requires
            self.wf(),
        ensures
            match key_pos(self.text_seq(), adv_token(self.text_seq(), self.position()), key@) {
                Ok(Some(p)) => r matches Ok(n) && n.wf() && n.text_seq() == self.text_seq()
                    && n.position() == p && n.normalized(),
                Ok(None) => r matches Err(e) && e matches Error::KeyNotFound(k) && k@ == key@,
                Err(e) => r matches Err(e2) && e2 == e,
            },
    {
        let ghost s = self.text_seq();
        let mut cursor = self.cursor;
        cursor.advance_token();
        loop
            invariant
                cursor.wf(),
                cursor.text_seq() == s,
                s == self.text_seq(),
                self.wf(),
                key_pos(s, adv_token(s, self.position()), key@) == key_pos(
                    s,
                    cursor.position(),
                    key@,
                ),
            decreases s.len() - cursor.position(),
        {
            let ghost i = cursor.position();
            let c = match cursor.get_char() {
                None => {
                    return Err(Error::UnterminatedObject);
                },
                Some(c) => c,
            };
            if c == '}' {
                return Err(Error::KeyNotFound(key.to_owned()));
            }
            let matched = match cursor.advance_and_match_string(key) {
                Err(e) => {
                    return Err(e);
                },
                Ok(m) => m,
            };
            let colon = match cursor.get_char() {
                Some(c) => c == ':',
                None => false,
            };
            if !colon {
                return Err(Error::UnterminatedObject);
            }
            cursor.advance_token();
            if matched {
                return Ok(GenericNode { cursor, _pd: PhantomData });
            }
            match cursor.advance_value() {
                Err(e) => {
                    return Err(e);
                },
                Ok(()) => {},
            }
            let comma = match cursor.get_char() {
                Some(c2) => c2 == ',',
                None => false,
            };
            if comma {
                cursor.advance_token();
            }
        }
    }
}

/// Sibling independence: what resolving index `j` yields is fixed by the
/// array node's text and position alone. Every navigation call copies its
/// cursor before moving, so work done with the node obtained for another
/// index — however far it is advanced — leaves the array node's view
/// unchanged and with it the outcome for `j`: two array nodes that view
/// the same text at the same position resolve `j` to the same result.
pub proof fn lemma_sibling_independence<'a>(before: Array<'a>, after: Array<'a>, j: usize)
    requires
        before.wf(),
        after.wf(),
        after.text_seq() == before.text_seq(),
        after.position() == before.position(),
    ensures
        elem_pos(after.text_seq(), adv_token(after.text_seq(), after.position()), j as nat, j)
            == elem_pos(
            before.text_seq(),
            adv_token(before.text_seq(), before.position()),
            j as nat,
            j,
        ),
{
}

impl<'a> Number<'a> {
    /// Reads the number under the node as an unsigned integer: the maximal
    /// run of digits starting at the node, in base 10. Fails if no digit
    /// starts there (a minus sign does not: this engine's schema has no
    /// negative plain-number fields) or if the value does not fit in 64
    /// bits.
    pub fn get_value(&self) -> (r: Result<u64>)
        requires
            self.wf(),
        ensures
            ({
                let s = self.text_seq();
                let p = self.position();
                let e = digits_end(s, p);
                let v = digits_val(s.subrange(p, e));
                &&& (r is Ok <==> p < e && v <= u64::MAX)
                &&& (r matches Ok(n) ==> n == v)
                &&& (r is Err ==> (r matches Err(err) && err == Error::NotANumber))
            }),
    {
        let ghost s = self.text_seq();
        let ghost p = self.position();
        let ghost e = digits_end(s, p);
        let mut cursor = self.cursor;
        let mut acc: u64 = 0;
        let mut any: bool = false;
        proof {
            assert(s.subrange(p, p) =~= Seq::<char>::empty());
        }
        loop
            invariant
                cursor.wf(),
                cursor.text_seq() == s,
                s == self.text_seq(),
                p == self.position(),
                self.wf(),
                e == digits_end(s, p),
                p <= cursor.position() <= e,
                digits_end(s, cursor.position()) == e,
                acc == digits_val(s.subrange(p, cursor.position())),
                any <==> p < cursor.position(),
            ensures
                acc == digits_val(s.subrange(p, e)),
                any <==> p < e,
            decreases s.len() - cursor.position(),
        {
            let ghost j = cursor.position();
            let c = match cursor.get_char() {
                None => {
                    break ;
                },
                Some(c) => c,
            };
            if !digit_char(c) {
                break ;
            }
            let d = (c as u32 - 48) as u64;
            proof {
                lemma_digits_val_step(s, p, j);
                lemma_u64_digit_bound(acc as int, d as int);
            }
            if acc > (u64::MAX - d) / 10 {
                proof {
                    lemma_digits_val_prefix(s, p, j + 1, e);
                }
                return Err(Error::NotANumber);
            }
            acc = acc * 10 + d;
            any = true;
            cursor.advance_character();
        }
        if any {
            Ok(acc)
        } else {
            Err(Error::NotANumber)
        }
    }
}

impl<'a> JsonString<'a> {
    /// Extracts the string's body, borrowed from the input text and
    /// excluding the surrounding quotes. Escapes inside the string are not
    /// supported and fail the extraction.
    pub fn get_value(&self) -> (r: Result<&'a str>)
        requires
            self.wf(),
        ensures
            match raw_scan(self.text_seq(), adv(self.text_seq(), self.position())) {
                Ok(q) => r matches Ok(sub) && sub@ == self.text_seq().subrange(
                    adv(self.text_seq(), self.position()),
                    q,
                ),
                Err(e) => r matches Err(e2) && e2 == e,
            },
    {
        let mut cursor = self.cursor;
        cursor.advance_and_get_string()
    }
}

} // verus!
