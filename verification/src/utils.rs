//! Number fields kept as raw borrowed text, converted only if and when a
//! caller asks for the numeric value.

use vstd::prelude::*;

use crate::scan::{
    digit_char, digits_val, is_digit, lemma_digits_val_prefix, lemma_digits_val_step,
    lemma_u64_digit_bound,
};

verus! {

/// A decimal number kept as the raw text of a JSON string field.
#[derive(Debug, Clone, Copy, PartialEq, Eq)]
pub struct LazyF64<'a>(pub &'a str);

/// An unsigned integer kept as the raw text of a JSON string field.
#[derive(Debug, Clone, Copy, PartialEq, Eq)]
pub struct LazyU64<'a>(pub &'a str);

impl<'a> LazyF64<'a> {
    /// The raw text of the number.
    pub fn raw(&self) -> (r: &'a str)
        ensures
            r@ == self.0@,
    {
        self.0
    }
}

impl<'a> LazyU64<'a> {
    /// The raw text of the number.
    pub fn raw(&self) -> (r: &'a str)
        ensures
            r@ == self.0@,
    {
        self.0
    }

    /// Reads the text as a base-10 unsigned integer. The text must be one
    /// or more digits, nothing else, and the value must fit in 64 bits.
    pub fn get(&self) -> (r: Option<u64>)
        ensures
            ({
                let s = self.0@;
                &&& (r is Some <==> s.len() > 0 && (forall|k: int|
                    0 <= k < s.len() ==> is_digit(s[k])) && digits_val(s) <= u64::MAX)
                &&& (r matches Some(v) ==> v == digits_val(s))
            }),
    {
        let ghost s = self.0@;
        let len = self.0.unicode_len();
        if len == 0 {
            return None;
        }
        let mut acc: u64 = 0;
        let mut k: usize = 0;
        proof {
            assert(s.subrange(0, 0) =~= Seq::<char>::empty());
        }
        while k < len
            invariant
                len == s.len(),
                s == self.0@,
                0 < len,
                k <= len,
                forall|t: int| 0 <= t < k ==> is_digit(s[t]),
                acc == digits_val(s.subrange(0, k as int)),
            decreases len - k,
        {
            let c = self.0.get_char(k);
            if !digit_char(c) {
                return None;
            }
            let d = (c as u32 - 48) as u64;
            proof {
                lemma_digits_val_step(s, 0, k as int);
                lemma_u64_digit_bound(acc as int, d as int);
            }
            if acc > (u64::MAX - d) / 10 {
                proof {
                    lemma_digits_val_prefix(s, 0, k + 1, len as int);
                    assert(s.subrange(0, len as int) =~= s);
                }
                return None;
            }
            acc = acc * 10 + d;
            k = k + 1;
        }
        proof {
            assert(s.subrange(0, len as int) =~= s);
        }
        Some(acc)
    }
}

} // verus!
